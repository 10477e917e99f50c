//! The flexbox solver of the `stretch` crate, as far as the widget tree
//! uses it.
//!
//! Nothing in this file is proved: each item states what the solver's source
//! shows, and the proofs about layout rest on these statements.

use vstd::prelude::*;
use crate::geometry::{Extent, Layout, Point};

verus! {

/// `stretch::node::Stretch`: one instance of the solver with its nodes.
#[verifier::external_type_specification]
#[verifier::external_body]
pub struct ExStretch(stretch::node::Stretch);

/// `stretch::node::Node`: names a node of one solver instance.
#[verifier::external_type_specification]
#[verifier::external_body]
pub struct ExNode(stretch::node::Node);

/// `stretch::style::Style`: the flexbox properties of a node.
#[verifier::external_type_specification]
#[verifier::external_body]
pub struct ExStyle(stretch::style::Style);

/// `stretch::style::Dimension`: a length that may be automatic, fixed or a
/// share of the parent's.
#[verifier::external_type_specification]
#[verifier::external_body]
pub struct ExDimension(stretch::style::Dimension);

/// `stretch::number::Number`: a length that may be left open.
#[verifier::external_type_specification]
#[verifier::external_body]
pub struct ExNumber(stretch::number::Number);

/// `stretch::geometry::Size`: a width and a height.
#[verifier::external_type_specification]
#[verifier::external_body]
#[verifier::reject_recursive_types(T)]
pub struct ExSize<T>(stretch::geometry::Size<T>);

/// `stretch::Error`: why the solver refused a call.
#[verifier::external_type_specification]
#[verifier::external_body]
pub struct ExError(stretch::Error);

/// Why no layout could be made.
#[derive(Clone, Copy, Debug, PartialEq, Eq, Structural)]
pub enum LayoutError {
    /// The solver was given a node that it does not hold.
    InvalidNode,
    /// A size could not be measured.
    Measure,
    /// The tree has more widgets than the solver can number.
    TooManyNodes,
}

/// How many nodes one solver instance can number.
pub const NODE_LIMIT: usize = 0xffff_ffff;

/// How many node numbers a solver instance has handed out and not taken
/// back. A number is taken back only when the instance is cleared. While
/// this stays below the limit, the 32-bit counter from which fresh numbers
/// come cannot run over.
pub uninterp spec fn nodes_made(solver: stretch::node::Stretch) -> nat;

/// Whether `node` is a node of the solver instance.
pub uninterp spec fn holds(solver: stretch::node::Stretch, node: stretch::node::Node) -> bool;

/// Whether a node of the solver instance has a measuring function. Only
/// such a function can make a solve fail.
pub uninterp spec fn measured(solver: stretch::node::Stretch) -> bool;

/// The style that a node of the solver instance was made with.
pub uninterp spec fn style_of(
    solver: stretch::node::Stretch,
    node: stretch::node::Node,
) -> stretch::style::Style;

/// The children that a node of the solver instance was made with, in
/// their order.
pub uninterp spec fn children_of(
    solver: stretch::node::Stretch,
    node: stretch::node::Node,
) -> Seq<stretch::node::Node>;

/// The rectangle that the solver instance holds for a node, as whole
/// numbers. After a solve it is the rectangle that the solve gave the node.
pub uninterp spec fn rectangle(solver: stretch::node::Stretch, node: stretch::node::Node) -> Layout;

/// Whether the rectangles that the solver instance holds come from a solve
/// of the tree below `root` for the available `size`.
pub uninterp spec fn solved_for(
    solver: stretch::node::Stretch,
    root: stretch::node::Node,
    size: stretch::geometry::Size<stretch::number::Number>,
) -> bool;

/// Whether the error says that the solver was given a node that it does
/// not hold (`Error::InvalidNode`). The only other error says that a
/// measuring function failed.
pub uninterp spec fn refuses_node(error: stretch::Error) -> bool;

/// The style `style` with `size` as its size.
pub uninterp spec fn sized(
    style: stretch::style::Style,
    size: stretch::geometry::Size<stretch::style::Dimension>,
) -> stretch::style::Style;

/// Whether `after` holds every node of `before`, each with the style and
/// the children that it has in `before`, and has a measuring function only
/// if `before` has one.
pub open spec fn keeps(before: stretch::node::Stretch, after: stretch::node::Stretch) -> bool {
    &&& measured(after) == measured(before)
    &&& forall|node: stretch::node::Node| #[trigger]
        holds(before, node) ==> holds(after, node) && style_of(after, node) == style_of(
            before,
            node,
        ) && children_of(after, node) == children_of(before, node)
}

/// `Stretch::new`: a solver instance without nodes. The crate takes the
/// instance's number from a table that the whole process shares; an
/// instance gives its number back when it is dropped.
#[verifier::external_body]
pub(crate) fn new_solver() -> (solver: stretch::node::Stretch)
    ensures
        nodes_made(solver) == 0,
        !measured(solver),
        forall|node: stretch::node::Node| !holds(solver, node),
{
    stretch::node::Stretch::new()
}

/// `Stretch::new_node`: adds a node with the given style and children and
/// returns its name. It refuses exactly if a child is no node of this
/// instance, with `Error::InvalidNode`, and then holds the nodes that it
/// held. The new node has no
/// measuring function and a name that no node of the instance had; the
/// other nodes stay as they are. Either way the counter of nodes goes up
/// by one; the call must not be made once the counter is at its end.
#[verifier::external_body]
pub(crate) fn new_node(
    solver: &mut stretch::node::Stretch,
    style: stretch::style::Style,
    children: Vec<stretch::node::Node>,
) -> (r: Result<stretch::node::Node, stretch::Error>)
    requires
        nodes_made(*old(solver)) < NODE_LIMIT,
    ensures
        nodes_made(*final(solver)) == nodes_made(*old(solver)) + 1,
        keeps(*old(solver), *final(solver)),
        (forall|i: int| 0 <= i < children@.len() ==> holds(*old(solver), #[trigger] children@[i]))
            <==> r is Ok,
        r matches Err(error) ==> refuses_node(error),
        r is Err ==> forall|node: stretch::node::Node| #[trigger]
            holds(*final(solver), node) ==> holds(*old(solver), node),
        r matches Ok(made) ==> {
            &&& !holds(*old(solver), made)
            &&& holds(*final(solver), made)
            &&& style_of(*final(solver), made) == style
            &&& children_of(*final(solver), made) == children@
            &&& forall|node: stretch::node::Node| #[trigger]
                holds(*final(solver), node) ==> holds(*old(solver), node) || node == made
        },
{
    solver.new_node(style, children)
}

/// `Stretch::compute_layout`: solves the tree below `node` for the given
/// available size. It refuses with `Error::InvalidNode` exactly if `node`
/// is no node of this instance; a node that it holds it refuses only if a
/// measuring function fails. It makes no node and changes none but for the
/// rectangles, which afterwards are those of this solve.
#[verifier::external_body]
pub(crate) fn compute_layout(
    solver: &mut stretch::node::Stretch,
    node: stretch::node::Node,
    size: stretch::geometry::Size<stretch::number::Number>,
) -> (r: Result<(), stretch::Error>)
    ensures
        nodes_made(*final(solver)) == nodes_made(*old(solver)),
        keeps(*old(solver), *final(solver)),
        holds(*old(solver), node) && !measured(*old(solver)) ==> r is Ok,
        r is Ok ==> solved_for(*final(solver), node, size),
        r matches Err(error) ==> (refuses_node(error) <==> !holds(*old(solver), node)),
        !holds(*old(solver), node) ==> r is Err,
        forall|other: stretch::node::Node| #[trigger]
            holds(*final(solver), other) ==> holds(*old(solver), other),
{
    solver.compute_layout(node, size)
}

/// `Stretch::layout`: the rectangle that the solver holds for `node`. It
/// refuses exactly if `node` is no node of this instance, with
/// `Error::InvalidNode`. The solver rounds
/// every rectangle to whole numbers at the end of a solve; here each of the
/// four numbers changes its type to `i64`.
#[verifier::external_body]
pub(crate) fn layout_of(solver: &stretch::node::Stretch, node: stretch::node::Node) -> (r: Result<
    Layout,
    stretch::Error,
>)
    ensures
        holds(*solver, node) <==> r is Ok,
        r matches Ok(found) ==> found == rectangle(*solver, node),
        r matches Err(error) ==> refuses_node(error),
{
    match solver.layout(node) {
        Ok(found) => Ok(
            Layout {
                size: Extent { width: found.size.width as i64, height: found.size.height as i64 },
                location: Point { x: found.location.x as i64, y: found.location.y as i64 },
            },
        ),
        Err(error) => Err(error),
    }
}

/// The style `style` with its `size` replaced, as a struct update of
/// `stretch::style::Style` writes it.
#[verifier::external_body]
pub(crate) fn with_size(
    style: &stretch::style::Style,
    size: stretch::geometry::Size<stretch::style::Dimension>,
) -> (r: stretch::style::Style)
    ensures
        r == sized(*style, size),
{
    stretch::style::Style { size, ..*style }
}

/// Whether a size leaves both its width and its height to the solver: each
/// of the two is `Dimension::Auto`.
pub uninterp spec fn is_automatic(size: stretch::geometry::Size<stretch::style::Dimension>) -> bool;

/// The size whose width and height are both `Dimension::Auto`.
#[verifier::external_body]
pub(crate) fn auto_size() -> (r: stretch::geometry::Size<stretch::style::Dimension>)
    ensures
        is_automatic(r),
{
    stretch::geometry::Size {
        width: stretch::style::Dimension::Auto,
        height: stretch::style::Dimension::Auto,
    }
}

/// Tells the two variants of `stretch::Error` apart.
#[verifier::external_body]
pub(crate) fn layout_error(error: &stretch::Error) -> (r: LayoutError)
    ensures
        r == if refuses_node(*error) {
            LayoutError::InvalidNode
        } else {
            LayoutError::Measure
        },
{
    match error {
        stretch::Error::InvalidNode(_) => LayoutError::InvalidNode,
        stretch::Error::Measure(_) => LayoutError::Measure,
    }
}

} // verus!
