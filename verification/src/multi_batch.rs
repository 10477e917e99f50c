//! Composition trees and the accumulator that turns one into draw
//! submissions.
//!
//! A [`MultiRenderable`] says what to draw and which parts must be drawn
//! before which. [`MultiBatch::render`] walks it once, keeps one open run of
//! text and one open run of quads of a single texture, and closes the runs
//! only where the tree demands it: where the texture changes, between two
//! layers, and at the end.

use vstd::prelude::*;
use crate::geometry::Point;

verus! {

/// A reference to a texture that the rendering backend keeps.
#[derive(Clone, Copy, Debug, PartialEq, Eq, Structural)]
pub struct TextureRef {
    pub id: u64,
}

/// A reference to a shaped run of text that the text backend keeps.
#[derive(Clone, Copy, Debug, PartialEq, Eq, Structural)]
pub struct RenderableWord {
    pub id: u64,
}

/// One corner of a drawable: where it lies, its colour as red, green, blue
/// and alpha, and the point of the texture that is drawn there.
#[derive(Clone, Copy, Debug, PartialEq, Eq)]
pub struct Vertex {
    pub position: (i64, i64, i64),
    pub color: (u8, u8, u8, u8),
    pub tex_coords: (u16, u16),
}

/// A shape drawn from one texture.
#[derive(Clone, Copy, Debug, PartialEq, Eq)]
pub enum Renderable {
    /// Four corners, in the order in which they are joined.
    Quadrilateral(Vertex, Vertex, Vertex, Vertex),
}

/// What to draw, and in which order.
#[derive(Debug, PartialEq, Eq)]
pub enum MultiRenderable {
    /// Draws nothing.
    Nothing,
    /// Each item is drawn completely before the next one begins.
    Layered(Vec<MultiRenderable>),
    /// The items may be drawn in any order, and merged.
    Adjacent(Vec<MultiRenderable>),
    /// One word of text at `offset`.
    Text { word: RenderableWord, offset: Point },
    /// Shapes drawn from one texture.
    Image { texture: TextureRef, renderables: Vec<Renderable> },
}

/// One call of the rendering backend.
#[derive(Debug, PartialEq, Eq)]
pub enum Submission {
    /// A run of words, each with its position.
    Text(Vec<(Point, RenderableWord)>),
    /// A run of shapes drawn from one texture.
    Image { texture: TextureRef, renderables: Vec<Renderable> },
}

/// A composition tree as a mathematical value.
#[verifier::ext_equal]
pub enum RenderTree {
    Nothing,
    Layered(Seq<RenderTree>),
    Adjacent(Seq<RenderTree>),
    Text { word: RenderableWord, offset: Point },
    Image { texture: TextureRef, renderables: Seq<Renderable> },
}

/// A submission as a mathematical value.
#[verifier::ext_equal]
pub enum Draw {
    Text(Seq<(Point, RenderableWord)>),
    Image { texture: TextureRef, renderables: Seq<Renderable> },
}

/// The trees that a sequence of composition trees stands for.
pub open spec fn trees(items: Seq<MultiRenderable>) -> Seq<RenderTree>
    decreases items,
{
    if items.len() == 0 {
        Seq::empty()
    } else {
        trees(items.drop_last()).push(items.last().view())
    }
}

impl View for MultiRenderable {
    type V = RenderTree;

    open spec fn view(&self) -> RenderTree
        decreases self,
    {
        match self {
            MultiRenderable::Nothing => RenderTree::Nothing,
            MultiRenderable::Layered(items) => RenderTree::Layered(trees(items@)),
            MultiRenderable::Adjacent(items) => RenderTree::Adjacent(trees(items@)),
            MultiRenderable::Text { word, offset } => RenderTree::Text {
                word: *word,
                offset: *offset,
            },
            MultiRenderable::Image { texture, renderables } => RenderTree::Image {
                texture: *texture,
                renderables: renderables@,
            },
        }
    }
}

impl View for Submission {
    type V = Draw;

    open spec fn view(&self) -> Draw {
        match self {
            Submission::Text(words) => Draw::Text(words@),
            Submission::Image { texture, renderables } => Draw::Image {
                texture: *texture,
                renderables: renderables@,
            },
        }
    }
}

/// The draws that a sequence of submissions stands for.
pub open spec fn draws(submissions: Seq<Submission>) -> Seq<Draw> {
    Seq::new(submissions.len(), |i: int| submissions[i]@)
}

/// Each tree of `trees(items)` is the view of the item at its place.
pub proof fn lemma_trees(items: Seq<MultiRenderable>)
    ensures
        trees(items).len() == items.len(),
        forall|i: int| 0 <= i < items.len() ==> (#[trigger] trees(items)[i]) == items[i]@,
    decreases items.len(),
{
    if items.len() > 0 {
        lemma_trees(items.drop_last());
        assert(trees(items) == trees(items.drop_last()).push(items.last()@));
        assert forall|i: int| 0 <= i < items.len() implies (#[trigger] trees(items)[i])
            == items[i]@ by {
            if i < items.len() - 1 {
                assert(trees(items)[i] == trees(items.drop_last())[i]);
                assert(items.drop_last()[i] == items[i]);
            }
        }
    }
}

/// What the accumulator holds while it walks a tree: the submissions made
/// so far, the open run of text, and the open run of quads with its texture.
pub struct Accumulation {
    pub done: Seq<Draw>,
    pub text: Seq<(Point, RenderableWord)>,
    pub quads: Seq<Renderable>,
    pub texture: Option<TextureRef>,
}

impl Accumulation {
    /// Nothing submitted, nothing open.
    pub open spec fn empty() -> Accumulation {
        Accumulation { done: Seq::empty(), text: Seq::empty(), quads: Seq::empty(), texture: None }
    }

    /// Open quads always have a texture.
    pub open spec fn well_formed(self) -> bool {
        self.quads.len() > 0 ==> self.texture is Some
    }

    /// Both runs closed: the text first, as one submission if there is any,
    /// then the quads, as one submission if there are any. Quads without a
    /// texture, which no walk leaves behind, would be dropped.
    pub open spec fn flushed(self) -> Accumulation {
        let with_text = if self.text.len() > 0 {
            self.done.push(Draw::Text(self.text))
        } else {
            self.done
        };
        let with_both = if self.quads.len() > 0 && self.texture is Some {
            with_text.push(Draw::Image { texture: self.texture->0, renderables: self.quads })
        } else {
            with_text
        };
        Accumulation {
            done: with_both,
            text: Seq::empty(),
            quads: Seq::empty(),
            texture: None,
        }
    }

    /// A word joins the open run of text.
    pub open spec fn with_text(self, word: RenderableWord, offset: Point) -> Accumulation {
        Accumulation { text: self.text.push((offset, word)), ..self }
    }

    /// Whether quads of `texture` cannot join the open run of quads.
    pub open spec fn cut_before(self, texture: TextureRef) -> bool {
        self.quads.len() > 0 && self.texture != Some(texture)
    }

    /// Quads of `texture` join the open run, after both runs were closed if
    /// the open quads belong to another texture.
    pub open spec fn with_image(
        self,
        texture: TextureRef,
        renderables: Seq<Renderable>,
    ) -> Accumulation {
        let start = if self.cut_before(texture) {
            self.flushed()
        } else {
            self
        };
        Accumulation { quads: start.quads + renderables, texture: Some(texture), ..start }
    }

    /// The accumulator after it has walked `tree`.
    pub open spec fn after(self, tree: RenderTree) -> Accumulation
        decreases tree,
    {
        match tree {
            RenderTree::Nothing => self,
            RenderTree::Layered(items) => self.after_layered(items),
            RenderTree::Adjacent(items) => self.after_adjacent(items),
            RenderTree::Text { word, offset } => self.with_text(word, offset),
            RenderTree::Image { texture, renderables } => self.with_image(texture, renderables),
        }
    }

    /// The accumulator after it has walked `items` one after the other.
    pub open spec fn after_adjacent(self, items: Seq<RenderTree>) -> Accumulation
        decreases items,
    {
        if items.len() == 0 {
            self
        } else {
            self.after_adjacent(items.drop_last()).after(items.last())
        }
    }

    /// The accumulator after it has walked `items` as layers: both runs are
    /// closed before every layer but the first.
    pub open spec fn after_layered(self, items: Seq<RenderTree>) -> Accumulation
        decreases items,
    {
        if items.len() == 0 {
            self
        } else if items.len() == 1 {
            self.after(items.last())
        } else {
            self.after_layered(items.drop_last()).flushed().after(items.last())
        }
    }
}

/// The submissions that rendering `tree` makes, in order.
pub open spec fn submissions(tree: RenderTree) -> Seq<Draw> {
    Accumulation::empty().after(tree).flushed().done
}

/// Whether a draw is sent to its backend: words always, shapes only once
/// their texture is ready.
pub open spec fn is_sent(draw: Draw, texture_ready: bool) -> bool {
    draw is Text || texture_ready
}

/// What is sent to the backends for `submission`, given whether the
/// texture that it draws from is ready: the submission itself, or nothing
/// where the texture is not ready. Such shapes are left out of the frame;
/// they are not kept for a later one. For words the answer plays no part.
pub fn send_if_ready(submission: Submission, texture_ready: bool) -> (r: Option<Submission>)
    ensures
        r == if is_sent(submission@, texture_ready) {
            Some(submission)
        } else {
            None
        },
{
    match submission {
        Submission::Text(words) => Some(Submission::Text(words)),
        Submission::Image { texture, renderables } => {
            if texture_ready {
                Some(Submission::Image { texture, renderables })
            } else {
                None
            }
        },
    }
}

/// The accumulator's buffers while a tree is walked.
struct MultiBatchRenderState {
    text_render_data: Vec<(Point, RenderableWord)>,
    batch_render_data: Vec<Renderable>,
    batch_render_texture: Option<TextureRef>,
    submissions: Vec<Submission>,
}

impl MultiBatchRenderState {
    spec fn model(&self) -> Accumulation {
        Accumulation {
            done: draws(self.submissions@),
            text: self.text_render_data@,
            quads: self.batch_render_data@,
            texture: self.batch_render_texture,
        }
    }

    /// Closes both runs.
    fn perform_render(&mut self)
        ensures
            final(self).model() == old(self).model().flushed(),
    {
        if self.text_render_data.len() > 0 {
            let mut words: Vec<(Point, RenderableWord)> = Vec::new();
            std::mem::swap(&mut words, &mut self.text_render_data);
            let ghost before = self.submissions@;
            self.submissions.push(Submission::Text(words));
            assert(draws(self.submissions@) =~= draws(before).push(Draw::Text(words@)));
        }
        if self.batch_render_data.len() > 0 {
            let mut quads: Vec<Renderable> = Vec::new();
            std::mem::swap(&mut quads, &mut self.batch_render_data);
            match self.batch_render_texture {
                Some(texture) => {
                    let ghost before = self.submissions@;
                    self.submissions.push(Submission::Image { texture, renderables: quads });
                    assert(draws(self.submissions@) =~= draws(before).push(
                        Draw::Image { texture, renderables: quads@ },
                    ));
                },
                None => {},
            }
        }
        self.batch_render_texture = None;
        let ghost want = old(self).model().flushed();
        assert(self.model().done =~= want.done);
        assert(self.model().text =~= want.text);
        assert(self.model().quads =~= want.quads);
    }

    /// Walks `renderable`, closing the runs where the tree demands it.
    #[verifier::loop_isolation(false)]
    fn incremental_render(&mut self, renderable: &MultiRenderable)
        ensures
            final(self).model() == old(self).model().after(renderable@),
        decreases renderable,
    {
        match renderable {
            MultiRenderable::Nothing => {},
            MultiRenderable::Layered(layers) => {
                let n = layers.len();
                let mut i: usize = 0;
                proof {
                    lemma_trees(layers@);
                }
                while i < n
                    invariant
                        n == layers@.len(),
                        i <= n,
                        trees(layers@).len() == n,
                        forall|k: int| 0 <= k < n ==> (#[trigger] trees(layers@)[k]) == layers@[k]@,
                        self.model() == old(self).model().after_layered(
                            trees(layers@).take(i as int),
                        ),
                    decreases n - i,
                {
                    if i != 0 {
                        self.perform_render();
                    }
                    self.incremental_render(&layers[i]);
                    proof {
                        let next = trees(layers@).take(i + 1);
                        assert(next.drop_last() =~= trees(layers@).take(i as int));
                        assert(next.last() == layers@[i as int]@);
                    }
                    i = i + 1;
                }
                assert(trees(layers@).take(n as int) =~= trees(layers@));
            },
            MultiRenderable::Adjacent(items) => {
                let n = items.len();
                let mut i: usize = 0;
                proof {
                    lemma_trees(items@);
                }
                while i < n
                    invariant
                        n == items@.len(),
                        i <= n,
                        trees(items@).len() == n,
                        forall|k: int| 0 <= k < n ==> (#[trigger] trees(items@)[k]) == items@[k]@,
                        self.model() == old(self).model().after_adjacent(
                            trees(items@).take(i as int),
                        ),
                    decreases n - i,
                {
                    self.incremental_render(&items[i]);
                    proof {
                        let next = trees(items@).take(i + 1);
                        assert(next.drop_last() =~= trees(items@).take(i as int));
                        assert(next.last() == items@[i as int]@);
                    }
                    i = i + 1;
                }
                assert(trees(items@).take(n as int) =~= trees(items@));
            },
            MultiRenderable::Text { word, offset } => {
                self.text_render_data.push((*offset, *word));
                assert(self.model() =~~= old(self).model().after(renderable@));
            },
            MultiRenderable::Image { texture, renderables } => {
                let differs = match self.batch_render_texture {
                    Some(open) => open.id != texture.id,
                    None => true,
                };
                if self.batch_render_data.len() > 0 && differs {
                    self.perform_render();
                }
                self.batch_render_texture = Some(*texture);
                let ghost start = self.batch_render_data@;
                let ghost words = self.text_render_data@;
                let ghost made = self.submissions@;
                let n = renderables.len();
                let mut j: usize = 0;
                while j < n
                    invariant
                        n == renderables@.len(),
                        j <= n,
                        self.batch_render_data@ == start + renderables@.take(j as int),
                        self.text_render_data@ == words,
                        self.submissions@ == made,
                        self.batch_render_texture == Some(*texture),
                    decreases n - j,
                {
                    let quad = renderables[j];
                    self.batch_render_data.push(quad);
                    assert(renderables@.take(j + 1) =~= renderables@.take(j as int).push(quad));
                    j = j + 1;
                }
                assert(renderables@.take(n as int) =~= renderables@);
                let ghost want = old(self).model().after(renderable@);
                assert(self.model().done =~= want.done);
                assert(self.model().text =~= want.text);
                assert(self.model().quads =~= want.quads);
            },
        }
    }
}

/// Renders composition trees with as few submissions as their order allows.
///
/// It holds the two backends that the submissions are meant for: `batch`
/// draws shapes from a texture, `text_renderer` draws words.
pub struct MultiBatch<B, T> {
    pub batch: B,
    pub text_renderer: T,
}

impl<B, T> MultiBatch<B, T> {
    /// A renderer for the two backends.
    pub fn new(batch: B, text_renderer: T) -> (r: Self)
        ensures
            r.batch == batch,
            r.text_renderer == text_renderer,
    {
        Self { batch, text_renderer }
    }

    /// The submissions that draw `renderable`, in the order in which the
    /// backends must get them. The backends themselves are not touched.
    pub fn render(&mut self, renderable: MultiRenderable) -> (r: Vec<Submission>)
        ensures
            draws(r@) == submissions(renderable@),
            *final(self) == *old(self),
    {
        let mut state = MultiBatchRenderState {
            text_render_data: Vec::new(),
            batch_render_data: Vec::new(),
            batch_render_texture: None,
            submissions: Vec::new(),
        };
        assert(state.model().done =~= Seq::empty());
        state.incremental_render(&renderable);
        state.perform_render();
        state.submissions
    }
}

} // verus!
