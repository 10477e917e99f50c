//! What a widget tree draws.
//!
//! A widget without a layout draws nothing. Any other draws, side by side,
//! what its element draws, what each of its children draws and, on request,
//! an outline of its rectangle; its backgrounds are drawn in layers below
//! all that. A part that draws nothing leaves no trace: it is neither an
//! item nor a layer, and a widget whose parts all draw nothing draws
//! nothing.

use vstd::prelude::*;
use crate::geometry::{
    clamp,
    saturating_difference,
    saturating_negation,
    saturating_sum,
    Layout,
    Point,
};
use crate::multi_batch::{
    lemma_trees,
    trees,
    MultiRenderable,
    RenderTree,
    Renderable,
    TextureRef,
    Vertex,
};
use crate::widget::{UiElement, Widget, WidgetView};

verus! {

/// The width of the lines of an outline.
pub const LINE_WIDTH: i64 = 1;

/// A white corner at `(x, y)`.
pub open spec fn corner(x: int, y: int) -> Vertex {
    Vertex { position: (x as i64, y as i64, 0), color: (255, 255, 255, 255), tex_coords: (0, 0) }
}

/// The quadrilateral with the given corners.
pub open spec fn quad(a: (int, int), b: (int, int), c: (int, int), d: (int, int)) -> Renderable {
    Renderable::Quadrilateral(
        corner(a.0, a.1),
        corner(b.0, b.1),
        corner(c.0, c.1),
        corner(d.0, d.1),
    )
}

/// The four lines around the rectangle `at`: the left one, the right one,
/// the upper one and the lower one. The rectangle's `y` grows downwards,
/// that of the quads upwards.
pub open spec fn outline(at: Layout) -> Seq<Renderable> {
    let x0 = at.location.x as int;
    let y0 = clamp(-at.location.y);
    let x1 = clamp(x0 + at.size.width);
    let y1 = clamp(y0 - at.size.height);
    let x0_in = clamp(x0 + LINE_WIDTH);
    let x1_in = clamp(x1 - LINE_WIDTH);
    let y0_in = clamp(y0 + LINE_WIDTH);
    let y1_in = clamp(y1 - LINE_WIDTH);
    seq![
        quad((x0, y0), (x0_in, y0), (x0_in, y1), (x0, y1)),
        quad((x1, y0), (x1_in, y0), (x1_in, y1), (x1, y1)),
        quad((x0, y0), (x0, y0_in), (x1, y0_in), (x1, y0)),
        quad((x0, y1), (x0, y1_in), (x1, y1_in), (x1, y1)),
    ]
}

/// The items that draw something: every `Nothing` is dropped, and the
/// others keep their order.
pub open spec fn drawing(items: Seq<RenderTree>) -> Seq<RenderTree>
    decreases items.len(),
{
    if items.len() == 0 {
        Seq::empty()
    } else if items.last() is Nothing {
        drawing(items.drop_last())
    } else {
        drawing(items.drop_last()).push(items.last())
    }
}

/// Items drawn side by side. An item that is `Nothing` is dropped; where
/// no item is left, the result is `Nothing`.
pub open spec fn adjacent(items: Seq<RenderTree>) -> RenderTree {
    let left = drawing(items);
    if left.len() == 0 {
        RenderTree::Nothing
    } else {
        RenderTree::Adjacent(left)
    }
}

/// `content` drawn above `backgrounds`: the backgrounds are layers, in
/// their order, and the content is the last layer. A layer that is
/// `Nothing` is dropped, be it a background or the content. Where no layer
/// is left, the result is `Nothing`; a single layer stands for itself.
pub open spec fn layered(backgrounds: Seq<RenderTree>, content: RenderTree) -> RenderTree {
    let layers = drawing(backgrounds.push(content));
    if layers.len() == 0 {
        RenderTree::Nothing
    } else if layers.len() == 1 {
        layers[0]
    } else {
        RenderTree::Layered(layers)
    }
}

/// The outline of `at` drawn from `texture`, where one is asked for.
pub open spec fn outline_item(debug: Option<TextureRef>, at: Layout) -> Seq<RenderTree> {
    match debug {
        Some(texture) => seq![RenderTree::Image { texture, renderables: outline(at) }],
        None => Seq::empty(),
    }
}

/// What the parts of a widget drew: its element, its children, and its
/// backgrounds.
pub struct RenderParts {
    pub own: RenderTree,
    pub children: Seq<RenderTree>,
    pub backgrounds: Seq<RenderTree>,
}

/// What a widget with the rectangle `at` draws, given what its parts drew.
pub open spec fn composed(parts: RenderParts, debug: Option<TextureRef>, at: Layout) -> RenderTree {
    layered(
        parts.backgrounds,
        adjacent(seq![parts.own] + parts.children + outline_item(debug, at)),
    )
}

/// Whether `tree` is what `element` answers when it is asked what to draw
/// with the rectangle `at`.
pub open spec fn drawn_by<E: UiElement>(element: E, at: Layout, tree: RenderTree) -> bool {
    exists|answer: MultiRenderable|
        call_ensures(E::generate_render_info, (&element, &at), answer) && #[trigger] answer@
            == tree
}

impl<E: UiElement> WidgetView<E> {
    /// Whether `tree` is what this widget draws at `offset`. A widget
    /// without a layout draws nothing. Any other composes what its parts
    /// drew: its element and each background, lowest first, were asked with
    /// the widget's rectangle moved by `offset`, and each child drew at the
    /// corner of that rectangle.
    pub open spec fn renders(
        self,
        offset: Point,
        debug: Option<TextureRef>,
        tree: RenderTree,
    ) -> bool
        decreases self,
    {
        match self.layout {
            None => tree == RenderTree::Nothing,
            Some(layout) => exists|parts: RenderParts|
                {
                    &&& drawn_by(self.element, layout.moved(offset), parts.own)
                    &&& parts.children.len() == self.children.len()
                    &&& parts.backgrounds.len() == self.backgrounds.len()
                    &&& forall|i: int|
                        0 <= i < self.children.len() ==> self.children[i].renders(
                            layout.moved(offset).location,
                            debug,
                            #[trigger] parts.children[i],
                        )
                    &&& forall|k: int|
                        0 <= k < self.backgrounds.len() ==> drawn_by(
                            self.backgrounds[k],
                            layout.moved(offset),
                            #[trigger] parts.backgrounds[k],
                        )
                    &&& tree == #[trigger] composed(parts, debug, layout.moved(offset))
                },
        }
    }
}

/// A tree composed of what the parts of a widget drew is what the widget
/// draws.
pub proof fn lemma_renders<E: UiElement>(
    view: WidgetView<E>,
    parts: RenderParts,
    offset: Point,
    debug: Option<TextureRef>,
    tree: RenderTree,
)
    requires
        view.layout is Some,
        drawn_by(view.element, view.layout->0.moved(offset), parts.own),
        forall|k: int|
            0 <= k < view.backgrounds.len() ==> drawn_by(
                view.backgrounds[k],
                view.layout->0.moved(offset),
                #[trigger] parts.backgrounds[k],
            ),
        parts.children.len() == view.children.len(),
        parts.backgrounds.len() == view.backgrounds.len(),
        forall|i: int|
            0 <= i < view.children.len() ==> view.children[i].renders(
                view.layout->0.moved(offset).location,
                debug,
                #[trigger] parts.children[i],
            ),
        tree == composed(parts, debug, view.layout->0.moved(offset)),
    ensures
        view.renders(offset, debug, tree),
{
}

/// The four lines around `at`.
pub fn outline_quads(at: &Layout) -> (r: Vec<Renderable>)
    ensures
        r@ == outline(*at),
{
    let x0 = at.location.x;
    let y0 = saturating_negation(at.location.y);
    let x1 = saturating_sum(x0, at.size.width);
    let y1 = saturating_difference(y0, at.size.height);
    let x0_in = saturating_sum(x0, LINE_WIDTH);
    let x1_in = saturating_difference(x1, LINE_WIDTH);
    let y0_in = saturating_sum(y0, LINE_WIDTH);
    let y1_in = saturating_difference(y1, LINE_WIDTH);
    let mut r: Vec<Renderable> = Vec::new();
    r.push(
        Renderable::Quadrilateral(
            white(x0, y0),
            white(x0_in, y0),
            white(x0_in, y1),
            white(x0, y1),
        ),
    );
    r.push(
        Renderable::Quadrilateral(
            white(x1, y0),
            white(x1_in, y0),
            white(x1_in, y1),
            white(x1, y1),
        ),
    );
    r.push(
        Renderable::Quadrilateral(
            white(x0, y0),
            white(x0, y0_in),
            white(x1, y0_in),
            white(x1, y0),
        ),
    );
    r.push(
        Renderable::Quadrilateral(
            white(x0, y1),
            white(x0, y1_in),
            white(x1, y1_in),
            white(x1, y1),
        ),
    );
    assert(r@ =~= outline(*at));
    r
}

/// A white corner at `(x, y)`.
fn white(x: i64, y: i64) -> (r: Vertex)
    ensures
        r == corner(x as int, y as int),
{
    Vertex { position: (x, y, 0), color: (255, 255, 255, 255), tex_coords: (0, 0) }
}

/// The outline of `at`, drawn from `texture`.
pub fn debug_outline(texture: TextureRef, at: &Layout) -> (r: MultiRenderable)
    ensures
        r@ == (RenderTree::Image { texture, renderables: outline(*at) }),
{
    MultiRenderable::Image { texture, renderables: outline_quads(at) }
}

/// One more item: what draws is what drew before, and the item if it is
/// not `Nothing`.
pub proof fn lemma_drawing_push(items: Seq<RenderTree>, item: RenderTree)
    ensures
        drawing(items.push(item)) == if item is Nothing {
            drawing(items)
        } else {
            drawing(items).push(item)
        },
{
    assert(items.push(item).drop_last() =~= items);
}

/// `Nothing` is dropped wherever it stands: no item that is left is
/// `Nothing`, and items that are all `Nothing` leave no item.
pub proof fn law_nothing_is_dropped(items: Seq<RenderTree>)
    ensures
        drawing(items).len() <= items.len(),
        forall|i: int| 0 <= i < drawing(items).len() ==> !(#[trigger] drawing(items)[i] is Nothing),
        (forall|i: int| 0 <= i < items.len() ==> #[trigger] items[i] is Nothing) ==> drawing(
            items,
        ).len() == 0,
    decreases items.len(),
{
    if items.len() > 0 {
        law_nothing_is_dropped(items.drop_last());
        if forall|i: int| 0 <= i < items.len() ==> #[trigger] items[i] is Nothing {
            assert forall|i: int| 0 <= i < items.drop_last().len() implies #[trigger]
                items.drop_last()[i] is Nothing by {
                assert(items[i] is Nothing);
            }
            assert(items[items.len() - 1] is Nothing);
        }
    }
}

/// A widget whose parts all draw nothing draws `Nothing`, and a widget of
/// which one background alone draws something draws what that background
/// drew, without a group around it.
pub proof fn law_empty_parts_collapse(parts: RenderParts, at: Layout)
    requires
        parts.own is Nothing,
        forall|i: int| 0 <= i < parts.children.len() ==> #[trigger] parts.children[i] is Nothing,
    ensures
        adjacent(seq![parts.own] + parts.children) is Nothing,
        (forall|i: int|
            0 <= i < parts.backgrounds.len() ==> #[trigger] parts.backgrounds[i] is Nothing)
            ==> composed(parts, None, at) is Nothing,
        parts.backgrounds.len() == 1 && !(parts.backgrounds[0] is Nothing) ==> composed(
            parts,
            None,
            at,
        ) == parts.backgrounds[0],
{
    let items = seq![parts.own] + parts.children;
    assert(items + outline_item(None, at) =~= items);
    assert forall|i: int| 0 <= i < items.len() implies #[trigger] items[i] is Nothing by {
        if i > 0 {
            assert(items[i] == parts.children[i - 1]);
        }
    }
    law_nothing_is_dropped(items);
    let content = adjacent(items);
    lemma_drawing_push(parts.backgrounds, content);
    if forall|i: int|
        0 <= i < parts.backgrounds.len() ==> #[trigger] parts.backgrounds[i] is Nothing {
        law_nothing_is_dropped(parts.backgrounds);
    }
    if parts.backgrounds.len() == 1 && !(parts.backgrounds[0] is Nothing) {
        let only = parts.backgrounds[0];
        assert(parts.backgrounds =~= Seq::<RenderTree>::empty().push(only));
        lemma_drawing_push(Seq::<RenderTree>::empty(), only);
    }
}

/// The items that draw something, in their order.
pub fn without_nothing(items: Vec<MultiRenderable>) -> (r: Vec<MultiRenderable>)
    ensures
        trees(r@) == drawing(trees(items@)),
{
    let ghost all = items@;
    let mut left: Vec<MultiRenderable> = Vec::new();
    for item in it: items.into_iter()
        invariant
            it.seq() == all,
            trees(left@) == drawing(trees(all.take(it.index() as int))),
    {
        proof {
            let upto = it.index() as int;
            assert(all.take(upto + 1).drop_last() =~= all.take(upto));
            assert(all.take(upto + 1).last() == item);
            lemma_drawing_push(trees(all.take(upto)), item@);
        }
        match item {
            MultiRenderable::Nothing => {},
            other => {
                proof {
                    assert(left@.push(other).drop_last() =~= left@);
                }
                left.push(other);
            },
        }
    }
    assert(all.take(all.len() as int) =~= all);
    left
}

/// Items drawn side by side.
pub fn combine_adjacent(items: Vec<MultiRenderable>) -> (r: MultiRenderable)
    ensures
        r@ == adjacent(trees(items@)),
{
    let left = without_nothing(items);
    proof {
        lemma_trees(left@);
    }
    if left.len() == 0 {
        MultiRenderable::Nothing
    } else {
        MultiRenderable::Adjacent(left)
    }
}

/// `content` drawn above `backgrounds`.
pub fn combine_layers(backgrounds: Vec<MultiRenderable>, content: MultiRenderable) -> (r:
    MultiRenderable)
    ensures
        r@ == layered(trees(backgrounds@), content@),
{
    let mut all = backgrounds;
    all.push(content);
    proof {
        assert(all@.drop_last() =~= backgrounds@);
        assert(trees(all@) == trees(backgrounds@).push(content@));
    }
    let mut layers = without_nothing(all);
    proof {
        lemma_trees(layers@);
    }
    if layers.len() == 1 {
        match layers.pop() {
            Some(only) => only,
            None => MultiRenderable::Nothing,
        }
    } else if layers.len() == 0 {
        MultiRenderable::Nothing
    } else {
        MultiRenderable::Layered(layers)
    }
}

impl<E: UiElement> Widget<E> {
    /// What this widget and everything below it draws, with every rectangle
    /// moved by `offset`. With a texture in `debug_line_texture`, every
    /// widget's rectangle is outlined.
    pub fn generate_render_info(
        &self,
        offset: Point,
        debug_line_texture: Option<TextureRef>,
    ) -> (r: MultiRenderable)
        ensures
            self@.renders(offset, debug_line_texture, r@),
        decreases self,
    {
        proof {
            self.0.lemma_view();
        }
        match self.0.layout {
            None => {
                let r = MultiRenderable::Nothing;
                assert(self@.layout is None);
                assert(r@ == RenderTree::Nothing);
                assert(self@.renders(offset, debug_line_texture, r@));
                r
            },
            Some(layout) => {
                let at = layout.moved_by(offset);
                let mut items: Vec<MultiRenderable> = Vec::new();
                let answer = self.0.element.generate_render_info(&at);
                let ghost own = answer@;
                assert(drawn_by(self.0.element, at, own));
                items.push(answer);
                let n = self.0.children.len();
                let mut i: usize = 0;
                while i < n
                    invariant
                        n == self.0.children@.len(),
                        i <= n,
                        items@.len() == i + 1,
                        items@[0]@ == own,
                        self@.children == crate::widget::views(self.0.children@),
                        forall|j: int|
                            0 <= j < i ==> self@.children[j].renders(
                                at.location,
                                debug_line_texture,
                                (#[trigger] items@[j + 1])@,
                            ),
                    decreases n - i,
                {
                    let drawn = self.0.children[i].generate_render_info(
                        at.location,
                        debug_line_texture,
                    );
                    items.push(drawn);
                    i = i + 1;
                }
                let ghost before = items;
                let ghost kids = Seq::new(n as nat, |j: int| before@[j + 1]@);
                if let Some(texture) = debug_line_texture {
                    items.push(debug_outline(texture, &at));
                }
                proof {
                    lemma_trees(items@);
                    assert(trees(items@) =~= seq![own] + kids + outline_item(
                        debug_line_texture,
                        at,
                    ));
                }
                let content = combine_adjacent(items);
                let m = self.0.backgrounds.len();
                let mut layers: Vec<MultiRenderable> = Vec::new();
                let mut k: usize = 0;
                while k < m
                    invariant
                        m == self.0.backgrounds@.len(),
                        k <= m,
                        layers@.len() == k,
                        forall|j: int|
                            0 <= j < k ==> drawn_by(
                                self.0.backgrounds@[j],
                                at,
                                (#[trigger] layers@[j])@,
                            ),
                    decreases m - k,
                {
                    let answer = self.0.backgrounds[k].generate_render_info(&at);
                    assert(drawn_by(self.0.backgrounds@[k as int], at, answer@));
                    layers.push(answer);
                    k = k + 1;
                }
                proof {
                    lemma_trees(layers@);
                }
                let ghost parts = RenderParts {
                    own,
                    children: kids,
                    backgrounds: trees(layers@),
                };
                let r = combine_layers(layers, content);
                proof {
                    assert forall|j: int| 0 <= j < n implies self@.children[j].renders(
                        at.location,
                        debug_line_texture,
                        #[trigger] parts.children[j],
                    ) by {
                        assert(parts.children[j] == before@[j + 1]@);
                    }
                    assert(r@ == composed(parts, debug_line_texture, at));
                    lemma_renders(self@, parts, offset, debug_line_texture, r@);
                }
                r
            },
        }
    }
}

} // verus!
