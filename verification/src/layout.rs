//! From the widget tree to the solver and back.
//!
//! A layout pass copies the tree's shape and styles, gives the solver one
//! node for each widget, children before their parent, lets it solve, and
//! writes the rectangle of each node into the widget that it stands for.

use vstd::prelude::*;
use crate::geometry::Layout;
use crate::solver::{
    children_of,
    compute_layout,
    holds,
    keeps,
    layout_error,
    layout_of,
    measured,
    new_node,
    new_solver,
    nodes_made,
    rectangle,
    sized,
    solved_for,
    style_of,
    with_size,
    LayoutError,
    NODE_LIMIT,
};
use crate::widget::{lemma_total_take, total, UiElement, Widget, WidgetView};

verus! {

/// What the solver is told about a widget: its style, the size that its
/// element asks for, and the same about each child.
pub struct WidgetStyle {
    pub style: stretch::style::Style,
    pub size: stretch::geometry::Size<stretch::style::Dimension>,
    pub children: Vec<WidgetStyle>,
}

impl WidgetStyle {
    /// How many widgets this one stands for, itself included.
    pub open spec fn count(&self) -> nat
        decreases self,
    {
        1 + Self::total(self.children@)
    }

    /// How many widgets some styles stand for together.
    pub open spec fn total(styles: Seq<WidgetStyle>) -> nat
        decreases styles,
    {
        if styles.len() == 0 {
            0
        } else {
            Self::total(styles.drop_last()) + styles.last().count()
        }
    }

    /// Whether this is the style of `widget`: it has the widget's style,
    /// a size that the widget's element asks for, and as many children,
    /// each the style of the child at its place.
    pub open spec fn describes<E: UiElement>(&self, widget: WidgetView<E>) -> bool
        decreases self,
    {
        &&& self.style == widget.style
        &&& call_ensures(E::get_size, (&widget.element,), self.size)
        &&& self.children@.len() == widget.children.len()
        &&& forall|i: int|
            0 <= i < self.children@.len() ==> self.children@[i].describes(
                #[trigger] widget.children[i],
            )
    }

    /// The first styles of a sequence, one more at a time.
    proof fn lemma_total_take(styles: Seq<WidgetStyle>, upto: int)
        requires
            0 <= upto <= styles.len(),
        ensures
            Self::total(styles.take(upto)) <= Self::total(styles),
            upto < styles.len() ==> Self::total(styles.take(upto + 1)) == Self::total(
                styles.take(upto),
            ) + styles[upto].count(),
        decreases styles.len(),
    {
        if upto < styles.len() {
            let next = styles.take(upto + 1);
            assert(next.drop_last() =~= styles.take(upto));
            assert(next.last() == styles[upto]);
            if upto + 1 == styles.len() {
                assert(next =~= styles);
            } else {
                assert(styles.drop_last().take(upto) =~= styles.take(upto));
                Self::lemma_total_take(styles.drop_last(), upto);
            }
        } else {
            assert(styles.take(upto) =~= styles);
        }
    }

    /// The first styles of a sequence stand for no more widgets than a
    /// longer beginning of it.
    proof fn lemma_total_upto(styles: Seq<WidgetStyle>, fewer: int, more: int)
        requires
            0 <= fewer <= more <= styles.len(),
        ensures
            Self::total(styles.take(fewer)) <= Self::total(styles.take(more)),
    {
        assert(styles.take(more).take(fewer) =~= styles.take(fewer));
        Self::lemma_total_take(styles.take(more), fewer);
    }

    /// The style of a widget stands for as many widgets as the widget
    /// holds.
    pub proof fn lemma_describes_count<E: UiElement>(&self, widget: WidgetView<E>)
        requires
            self.describes(widget),
        ensures
            self.count() == widget.count(),
        decreases self,
    {
        Self::lemma_describes_total(self.children@, widget.children);
    }

    proof fn lemma_describes_total<E: UiElement>(
        styles: Seq<WidgetStyle>,
        widgets: Seq<WidgetView<E>>,
    )
        requires
            styles.len() == widgets.len(),
            forall|i: int|
                0 <= i < styles.len() ==> styles[i].describes(#[trigger] widgets[i]),
        ensures
            Self::total(styles) == total(widgets),
        decreases styles,
    {
        if styles.len() > 0 {
            assert forall|i: int| 0 <= i < styles.drop_last().len() implies styles.drop_last()[i].describes(
             #[trigger] widgets.drop_last()[i]) by {
                assert(styles[i].describes(widgets[i]));
            }
            Self::lemma_describes_total(styles.drop_last(), widgets.drop_last());
            assert(styles.last().describes(widgets[widgets.len() - 1]));
            styles.last().lemma_describes_count(widgets.last());
        }
    }

    /// How many widgets this style stands for, if they are no more than
    /// `limit`.
    pub fn count_within(&self, limit: usize) -> (r: Option<usize>)
        ensures
            match r {
                Some(n) => n == self.count() && n <= limit,
                None => self.count() > limit,
            },
        decreases self,
    {
        if limit < 1 {
            return None;
        }
        let n = self.children.len();
        let mut found: usize = 1;
        let mut i: usize = 0;
        while i < n
            invariant
                n == self.children@.len(),
                i <= n,
                1 <= found <= limit,
                found == 1 + Self::total(self.children@.take(i as int)),
            decreases n - i,
        {
            proof {
                Self::lemma_total_take(self.children@, i as int);
                Self::lemma_total_take(self.children@, i + 1);
            }
            match self.children[i].count_within(limit - found) {
                Some(more) => {
                    found = found + more;
                },
                None => {
                    return None;
                },
            }
            i = i + 1;
        }
        assert(self.children@.take(n as int) =~= self.children@);
        Some(found)
    }
}

impl<E> WidgetView<E> {
    /// The tree with the rectangles of one layout pass. `layouts` holds one
    /// rectangle for each widget, children before their parent: each child
    /// takes as many as it holds widgets, in the order of the children, and
    /// the last one is the widget's own.
    pub open spec fn laid_out(self, layouts: Seq<Layout>) -> WidgetView<E>
        recommends
            layouts.len() == self.count(),
        decreases self,
    {
        WidgetView {
            layout: Some(layouts[self.count() - 1]),
            children: Seq::new(
                self.children.len(),
                |i: int|
                    if 0 <= i < self.children.len() {
                        self.children[i].laid_out(
                            layouts.subrange(
                                total(self.children.take(i)) as int,
                                total(self.children.take(i + 1)) as int,
                            ),
                        )
                    } else {
                        arbitrary()
                    },
            ),
            ..self
        }
    }
}

impl WidgetStyle {
    /// The part of `nodes` that belongs to the child at `at`: the nodes of
    /// the children before it come first.
    pub open spec fn part(
        &self,
        nodes: Seq<stretch::node::Node>,
        at: int,
    ) -> Seq<stretch::node::Node> {
        nodes.subrange(
            Self::total(self.children@.take(at)) as int,
            Self::total(self.children@.take(at + 1)) as int,
        )
    }

    /// Whether the solver holds the tree that this style describes, with
    /// `nodes` as its nodes, children before their parent. The last node
    /// stands for this style: it was made with the style's own style, sized
    /// as the element asked, and with the nodes of the children as its
    /// children, in their order. The nodes before it are those of the
    /// children, one child after the other.
    pub open spec fn built(
        &self,
        solver: stretch::node::Stretch,
        nodes: Seq<stretch::node::Node>,
    ) -> bool
        decreases self,
    {
        &&& nodes.len() == self.count()
        &&& holds(solver, nodes.last())
        &&& style_of(solver, nodes.last()) == sized(self.style, self.size)
        &&& children_of(solver, nodes.last()).len() == self.children@.len()
        &&& forall|i: int|
            #![trigger self.part(nodes, i)]
            0 <= i < self.children@.len() ==> self.children@[i].built(
                solver,
                self.part(nodes, i),
            ) && children_of(solver, nodes.last())[i] == self.part(nodes, i).last()
    }

    /// A tree that a solver holds is still held once the solver has made
    /// more nodes or solved.
    pub proof fn lemma_built_kept(
        &self,
        before: stretch::node::Stretch,
        after: stretch::node::Stretch,
        nodes: Seq<stretch::node::Node>,
    )
        requires
            self.built(before, nodes),
            keeps(before, after),
        ensures
            self.built(after, nodes),
        decreases self,
    {
        let root = nodes.last();
        assert(holds(before, root));
        assert forall|i: int|
            #![trigger self.part(nodes, i)]
            0 <= i < self.children@.len() implies self.children@[i].built(
            after,
            self.part(nodes, i),
        ) && children_of(after, root)[i] == self.part(nodes, i).last() by {
            self.children@[i].lemma_built_kept(before, after, self.part(nodes, i));
        }
    }

    /// The solver holds every node of a tree that it holds.
    pub proof fn lemma_built_holds(
        &self,
        solver: stretch::node::Stretch,
        nodes: Seq<stretch::node::Node>,
        at: int,
    )
        requires
            self.built(solver, nodes),
            0 <= at < nodes.len(),
        ensures
            holds(solver, nodes[at]),
        decreases self,
    {
        if at < nodes.len() - 1 {
            let i = Self::lemma_find_child(self.children@, at);
            Self::lemma_total_take(self.children@, i);
            Self::lemma_total_take(self.children@, i + 1);
            let part = self.part(nodes, i);
            self.children@[i].lemma_built_holds(
                solver,
                part,
                at - Self::total(self.children@.take(i)),
            );
        }
    }

    /// The child to whose widgets the one at `at` belongs.
    pub proof fn lemma_find_child(styles: Seq<WidgetStyle>, at: int) -> (i: int)
        requires
            0 <= at < Self::total(styles),
        ensures
            0 <= i < styles.len(),
            Self::total(styles.take(i)) <= at < Self::total(styles.take(i + 1)),
        decreases styles.len(),
    {
        let last = styles.len() - 1;
        assert(styles.take(last) =~= styles.drop_last());
        assert(styles.take(last + 1) =~= styles);
        if at >= Self::total(styles.drop_last()) {
            last
        } else {
            let i = Self::lemma_find_child(styles.drop_last(), at);
            assert(styles.drop_last().take(i) =~= styles.take(i));
            assert(styles.drop_last().take(i + 1) =~= styles.take(i + 1));
            i
        }
    }
}

/// Keeping is passed on.
pub proof fn lemma_keeps_on(
    first: stretch::node::Stretch,
    second: stretch::node::Stretch,
    third: stretch::node::Stretch,
)
    requires
        keeps(first, second),
        keeps(second, third),
    ensures
        keeps(first, third),
{
    assert forall|node: stretch::node::Node| #[trigger] holds(first, node) implies holds(
        third,
        node,
    ) && style_of(third, node) == style_of(first, node) && children_of(third, node)
        == children_of(first, node) by {
        assert(holds(second, node));
    }
}

/// Gives the solver one node for `widget_style` and for each style below
/// it, children before their parent. Returns the node of `widget_style` and
/// all the nodes in the order in which they were made. The solver never
/// refuses: every child that it is given is a node that it has just made.
pub fn generate_nodes(
    solver: &mut stretch::node::Stretch,
    widget_style: &WidgetStyle,
) -> (r: Result<(stretch::node::Node, Vec<stretch::node::Node>), LayoutError>)
    requires
        nodes_made(*old(solver)) + widget_style.count() <= NODE_LIMIT,
    ensures
        r is Ok,
        keeps(*old(solver), *final(solver)),
        nodes_made(*final(solver)) == nodes_made(*old(solver)) + widget_style.count(),
        r matches Ok((node, nodes)) ==> nodes@.len() == widget_style.count() && nodes@.last()
            == node && widget_style.built(*final(solver), nodes@),
        r matches Ok((node, nodes)) ==> forall|i: int|
            0 <= i < nodes@.len() ==> holds(*final(solver), #[trigger] nodes@[i]),
    decreases widget_style,
{
    let mut children: Vec<stretch::node::Node> = Vec::new();
    let mut child_nodes: Vec<stretch::node::Node> = Vec::new();
    let n = widget_style.children.len();
    let mut i: usize = 0;
    while i < n
        invariant
            n == widget_style.children@.len(),
            i <= n,
            children@.len() == i,
            child_nodes@.len() == WidgetStyle::total(widget_style.children@.take(i as int)),
            nodes_made(*solver) == nodes_made(*old(solver)) + child_nodes@.len(),
            nodes_made(*old(solver)) + widget_style.count() <= NODE_LIMIT,
            keeps(*old(solver), *solver),
            forall|j: int|
                #![trigger widget_style.part(child_nodes@, j)]
                0 <= j < i ==> widget_style.children@[j].built(
                    *solver,
                    widget_style.part(child_nodes@, j),
                ) && children@[j] == widget_style.part(child_nodes@, j).last(),
        decreases n - i,
    {
        proof {
            WidgetStyle::lemma_total_take(widget_style.children@, i as int);
            WidgetStyle::lemma_total_take(widget_style.children@, i + 1);
        }
        let ghost before = *solver;
        let ghost listed = child_nodes@;
        let ghost given = children@;
        match generate_nodes(solver, &widget_style.children[i]) {
            Ok((node, mut new_child_nodes)) => {
                let ghost made = new_child_nodes@;
                children.push(node);
                child_nodes.append(&mut new_child_nodes);
                proof {
                    lemma_keeps_on(*old(solver), before, *solver);
                    assert(widget_style.part(child_nodes@, i as int) =~= made);
                    assert forall|j: int|
                        #![trigger widget_style.part(child_nodes@, j)]
                        0 <= j < i implies widget_style.children@[j].built(
                        *solver,
                        widget_style.part(child_nodes@, j),
                    ) && children@[j] == widget_style.part(child_nodes@, j).last() by {
                        WidgetStyle::lemma_total_take(widget_style.children@, j);
                        WidgetStyle::lemma_total_take(widget_style.children@, j + 1);
                        WidgetStyle::lemma_total_upto(widget_style.children@, j + 1, i as int);
                        assert(widget_style.part(child_nodes@, j) =~= widget_style.part(
                            listed,
                            j,
                        ));
                        assert(children@[j] == given[j]);
                        widget_style.children@[j].lemma_built_kept(
                            before,
                            *solver,
                            widget_style.part(listed, j),
                        );
                    }
                }
            },
            Err(error) => {
                return Err(error);
            },
        }
        i = i + 1;
    }
    assert(widget_style.children@.take(n as int) =~= widget_style.children@);
    let style = with_size(&widget_style.style, widget_style.size);
    let ghost before = *solver;
    let ghost listed = child_nodes@;
    let ghost given = children@;
    proof {
        assert forall|j: int| 0 <= j < children@.len() implies holds(
            *solver,
            #[trigger] children@[j],
        ) by {
            let part = widget_style.part(listed, j);
            WidgetStyle::lemma_total_take(widget_style.children@, j);
            WidgetStyle::lemma_total_take(widget_style.children@, j + 1);
            assert(widget_style.children@[j].built(*solver, part));
            widget_style.children@[j].lemma_built_holds(*solver, part, part.len() - 1);
        }
    }
    match new_node(solver, style, children) {
        Ok(node) => {
            child_nodes.push(node);
            proof {
                lemma_keeps_on(*old(solver), before, *solver);
                assert(child_nodes@.last() == node);
                assert forall|j: int|
                    #![trigger widget_style.part(child_nodes@, j)]
                    0 <= j < n implies widget_style.children@[j].built(
                    *solver,
                    widget_style.part(child_nodes@, j),
                ) && children_of(*solver, child_nodes@.last())[j] == widget_style.part(
                    child_nodes@,
                    j,
                ).last() by {
                    WidgetStyle::lemma_total_take(widget_style.children@, j);
                    WidgetStyle::lemma_total_take(widget_style.children@, j + 1);
                    assert(widget_style.part(child_nodes@, j) =~= widget_style.part(listed, j));
                    assert(given[j] == widget_style.part(listed, j).last());
                    widget_style.children@[j].lemma_built_kept(
                        before,
                        *solver,
                        widget_style.part(listed, j),
                    );
                }
            }
            proof {
                assert forall|at: int| 0 <= at < child_nodes@.len() implies holds(
                    *solver,
                    #[trigger] child_nodes@[at],
                ) by {
                    widget_style.lemma_built_holds(*solver, child_nodes@, at);
                }
            }
            Ok((node, child_nodes))
        },
        Err(error) => Err(layout_error(&error)),
    }
}

/// The rectangle that the solver holds for each of `nodes`, in their
/// order. The solver refuses exactly if it does not hold one of them.
pub fn read_layouts(solver: &stretch::node::Stretch, nodes: &Vec<stretch::node::Node>) -> (r:
    Result<Vec<Layout>, LayoutError>)
    ensures
        (forall|i: int| 0 <= i < nodes@.len() ==> holds(*solver, #[trigger] nodes@[i])) <==> r is Ok,
        r matches Ok(layouts) ==> read_from(*solver, nodes@, layouts@),
        r matches Err(error) ==> error == LayoutError::InvalidNode,
{
    let mut layouts: Vec<Layout> = Vec::new();
    let n = nodes.len();
    let mut i: usize = 0;
    while i < n
        invariant
            n == nodes@.len(),
            i <= n,
            layouts@.len() == i,
            forall|j: int| 0 <= j < i ==> #[trigger] layouts@[j] == rectangle(*solver, nodes@[j]),
            forall|j: int| 0 <= j < i ==> holds(*solver, #[trigger] nodes@[j]),
        decreases n - i,
    {
        match layout_of(solver, nodes[i]) {
            Ok(layout) => {
                layouts.push(layout);
            },
            Err(error) => {
                return Err(layout_error(&error));
            },
        }
        i = i + 1;
    }
    Ok(layouts)
}

/// Whether `layouts` are the rectangles that the solver holds for `nodes`,
/// one for each, in their order.
pub open spec fn read_from(
    solver: stretch::node::Stretch,
    nodes: Seq<stretch::node::Node>,
    layouts: Seq<Layout>,
) -> bool {
    &&& layouts.len() == nodes.len()
    &&& forall|i: int| 0 <= i < nodes.len() ==> #[trigger] layouts[i] == rectangle(solver, nodes[i])
}

/// Lets the solver solve the tree below `root` for the available `size`
/// and reads the rectangle of each of `nodes`, in their order. The solver
/// refuses a root or a node that it does not hold; a tree that it holds it
/// refuses only if a measuring function fails.
pub fn compute_layouts(
    solver: &mut stretch::node::Stretch,
    root: stretch::node::Node,
    nodes: &Vec<stretch::node::Node>,
    size: stretch::geometry::Size<stretch::number::Number>,
) -> (r: Result<Vec<Layout>, LayoutError>)
    ensures
        keeps(*old(solver), *final(solver)),
        nodes_made(*final(solver)) == nodes_made(*old(solver)),
        holds(*old(solver), root) && !measured(*old(solver)) ==> ((forall|i: int|
            0 <= i < nodes@.len() ==> holds(*old(solver), #[trigger] nodes@[i])) <==> r is Ok),
        r matches Ok(layouts) ==> solved_for(*final(solver), root, size) && read_from(
            *final(solver),
            nodes@,
            layouts@,
        ),
        !holds(*old(solver), root) ==> r == Err::<Vec<Layout>, LayoutError>(
            LayoutError::InvalidNode,
        ),
        r matches Err(error) ==> error == LayoutError::InvalidNode || (error
            == LayoutError::Measure && holds(*old(solver), root) && measured(*old(solver))),
{
    match compute_layout(solver, root, size) {
        Ok(()) => {
            assert forall|i: int| 0 <= i < nodes@.len() && holds(
                *old(solver),
                nodes@[i],
            ) implies holds(*solver, #[trigger] nodes@[i]) by {}
            let r = read_layouts(solver, nodes);
            proof {
                if r is Ok {
                    assert forall|i: int| 0 <= i < nodes@.len() implies holds(
                        *old(solver),
                        #[trigger] nodes@[i],
                    ) by {
                        assert(holds(*solver, nodes@[i]));
                    }
                }
            }
            r
        },
        Err(error) => Err(layout_error(&error)),
    }
}

/// Whether `layouts` are what the solver finds for the tree that `styles`
/// describes and the available `size`: a solver holds that tree, has solved
/// it from its root for `size`, and holds `layouts` for its nodes, children
/// before their parent.
pub open spec fn solution(
    styles: WidgetStyle,
    size: stretch::geometry::Size<stretch::number::Number>,
    layouts: Seq<Layout>,
) -> bool {
    exists|solver: stretch::node::Stretch, nodes: Seq<stretch::node::Node>|
        #![trigger styles.built(solver, nodes)]
        styles.built(solver, nodes) && solved_for(solver, nodes.last(), size) && read_from(
            solver,
            nodes,
            layouts,
        )
}

/// Solves the tree that `styles` describes for the available `size`, if it
/// has no more than `limit` widgets. Returns the solver's rectangle for
/// each widget, children before their parent. A larger tree is refused
/// before the solver is asked, and no other tree is refused.
pub fn solve_within(
    styles: &WidgetStyle,
    size: stretch::geometry::Size<stretch::number::Number>,
    limit: usize,
) -> (r: Result<Vec<Layout>, LayoutError>)
    requires
        limit <= NODE_LIMIT,
    ensures
        r is Err <==> styles.count() > limit,
        r matches Err(error) ==> error == LayoutError::TooManyNodes,
        r matches Ok(layouts) ==> layouts@.len() == styles.count() && solution(
            *styles,
            size,
            layouts@,
        ),
{
    if styles.count_within(limit).is_none() {
        return Err(LayoutError::TooManyNodes);
    }
    let mut solver = new_solver();
    match generate_nodes(&mut solver, styles) {
        Ok((node, nodes)) => {
            let ghost built = solver;
            let r = compute_layouts(&mut solver, node, &nodes, size);
            proof {
                styles.lemma_built_kept(built, solver, nodes@);
            }
            r
        },
        Err(error) => Err(error),
    }
}

/// Solves the tree that `styles` describes for the available `size`.
/// Returns the solver's rectangle for each widget, children before their
/// parent. A tree with more widgets than the solver can number is refused
/// before the solver is asked, and no other tree is refused.
pub fn solve(
    styles: &WidgetStyle,
    size: stretch::geometry::Size<stretch::number::Number>,
) -> (r: Result<Vec<Layout>, LayoutError>)
    ensures
        r is Err <==> styles.count() > NODE_LIMIT,
        r matches Err(error) ==> error == LayoutError::TooManyNodes,
        r matches Ok(layouts) ==> layouts@.len() == styles.count() && solution(
            *styles,
            size,
            layouts@,
        ),
{
    solve_within(styles, size, NODE_LIMIT)
}

impl<E: UiElement> Widget<E> {
    /// Writes the rectangles of one layout pass into this widget and into
    /// everything below it. The rectangles are read from `layouts`,
    /// beginning at `start`; returns where the next widget's begin.
    pub fn apply_layouts(&mut self, layouts: &Vec<Layout>, start: usize) -> (next: usize)
        requires
            start + old(self)@.count() <= layouts@.len(),
        ensures
            next == start + old(self)@.count(),
            final(self)@ == old(self)@.laid_out(layouts@.subrange(start as int, next as int)),
        decreases *old(self),
    {
        proof {
            old(self).0.lemma_view();
        }
        let ghost kids = old(self)@.children;
        let n = self.0.children.len();
        let mut cursor: usize = start;
        let mut i: usize = 0;
        while i < n
            invariant
                n == self.0.children@.len(),
                n == old(self).0.children@.len(),
                kids == old(self)@.children,
                kids == crate::widget::views(old(self).0.children@),
                i <= n,
                cursor == start + total(kids.take(i as int)),
                start + 1 + total(kids) <= layouts@.len(),
                self.0.element == old(self).0.element,
                self.0.backgrounds == old(self).0.backgrounds,
                self.0.layout == old(self).0.layout,
                self.0.style == old(self).0.style,
                self.0.force_layout_signal == old(self).0.force_layout_signal,
                self.0.hover_position == old(self).0.hover_position,
                forall|j: int|
                    0 <= j < i ==> (#[trigger] self.0.children@[j])@ == kids[j].laid_out(
                        layouts@.subrange(
                            start + total(kids.take(j)),
                            start + total(kids.take(j + 1)),
                        ),
                    ),
                forall|j: int|
                    i <= j < n ==> (#[trigger] self.0.children@[j]) == old(self).0.children@[j],
            decreases n - i,
        {
            proof {
                lemma_total_take(kids, i as int);
                lemma_total_take(kids, i + 1);
                assert(kids[i as int] == self.0.children@[i as int]@);
            }
            cursor = self.0.children[i].apply_layouts(layouts, cursor);
            i = i + 1;
        }
        assert(kids.take(n as int) =~= kids);
        assert(cursor < layouts.len());
        let next = cursor + 1;
        self.0.layout = Some(layouts[cursor]);
        proof {
            self.0.lemma_view();
            let share = layouts@.subrange(start as int, cursor + 1);
            let want = old(self)@.laid_out(share);
            assert forall|j: int| 0 <= j < n implies self@.children[j] == want.children[j] by {
                lemma_total_take(kids, j);
                lemma_total_take(kids, j + 1);
                assert(self@.children[j] == self.0.children@[j]@);
                assert(share.subrange(total(kids.take(j)) as int, total(kids.take(j + 1)) as int)
                    =~= layouts@.subrange(
                    start + total(kids.take(j)),
                    start + total(kids.take(j + 1)),
                ));
            }
            assert(self@.children =~= want.children);
        }
        next
    }

    /// The shape and the styles of this widget and of everything below it,
    /// with the size that each element asks for.
    pub fn generate_styles(&self) -> (r: WidgetStyle)
        ensures
            r.describes(self@),
        decreases self,
    {
        let size = self.0.element.get_size();
        let mut children: Vec<WidgetStyle> = Vec::new();
        let n = self.0.children.len();
        let mut i: usize = 0;
        while i < n
            invariant
                n == self.0.children@.len(),
                i <= n,
                children@.len() == i,
                forall|j: int|
                    0 <= j < i ==> (#[trigger] children@[j]).describes(self.0.children@[j]@),
            decreases n - i,
        {
            let child = self.0.children[i].generate_styles();
            children.push(child);
            i = i + 1;
        }
        let r = WidgetStyle { style: self.0.style, size, children };
        proof {
            self.0.lemma_view();
            assert forall|j: int| 0 <= j < n implies r.children@[j].describes(
                #[trigger] self@.children[j],
            ) by {
                assert(self@.children[j] == self.0.children@[j]@);
            }
        }
        r
    }
}

} // verus!
