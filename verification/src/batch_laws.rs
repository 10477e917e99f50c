//! What holds of every composition tree when it is rendered.

use vstd::prelude::*;
use crate::multi_batch::{Accumulation, Draw, RenderTree, Renderable, TextureRef, submissions};

verus! {

impl Accumulation {
    /// The same accumulator with `earlier` submitted before everything else.
    pub open spec fn preceded_by(self, earlier: Seq<Draw>) -> Accumulation {
        Accumulation { done: earlier + self.done, ..self }
    }

    /// Neither run is open.
    pub open spec fn idle(self) -> bool {
        self.text.len() == 0 && self.quads.len() == 0 && self.texture is None
    }
}

/// Closing the runs does not look at what was submitted before.
pub proof fn lemma_flushed_preceded(s: Accumulation, earlier: Seq<Draw>)
    ensures
        s.preceded_by(earlier).flushed() == s.flushed().preceded_by(earlier),
{
    let a = s.preceded_by(earlier).flushed();
    let b = s.flushed().preceded_by(earlier);
    assert(a.done =~= b.done);
    assert(a.text =~= b.text);
    assert(a.quads =~= b.quads);
}

/// Walking a tree does not look at what was submitted before.
pub proof fn lemma_after_preceded(s: Accumulation, earlier: Seq<Draw>, tree: RenderTree)
    ensures
        s.preceded_by(earlier).after(tree) == s.after(tree).preceded_by(earlier),
    decreases tree,
{
    let a = s.preceded_by(earlier).after(tree);
    let b = s.after(tree).preceded_by(earlier);
    match tree {
        RenderTree::Nothing => {},
        RenderTree::Layered(items) => {
            lemma_after_layered_preceded(s, earlier, items);
        },
        RenderTree::Adjacent(items) => {
            lemma_after_adjacent_preceded(s, earlier, items);
        },
        RenderTree::Text { word, offset } => {
            assert(a.done =~= b.done);
        },
        RenderTree::Image { texture, renderables } => {
            lemma_flushed_preceded(s, earlier);
            assert(a.done =~= b.done);
            assert(a.quads =~= b.quads);
            assert(a.text =~= b.text);
        },
    }
}

/// Walking adjacent items does not look at what was submitted before.
pub proof fn lemma_after_adjacent_preceded(
    s: Accumulation,
    earlier: Seq<Draw>,
    items: Seq<RenderTree>,
)
    ensures
        s.preceded_by(earlier).after_adjacent(items) == s.after_adjacent(items).preceded_by(
            earlier,
        ),
    decreases items,
{
    if items.len() > 0 {
        lemma_after_adjacent_preceded(s, earlier, items.drop_last());
        lemma_after_preceded(s.after_adjacent(items.drop_last()), earlier, items.last());
    }
}

/// Walking layers does not look at what was submitted before.
pub proof fn lemma_after_layered_preceded(
    s: Accumulation,
    earlier: Seq<Draw>,
    items: Seq<RenderTree>,
)
    ensures
        s.preceded_by(earlier).after_layered(items) == s.after_layered(items).preceded_by(earlier),
    decreases items,
{
    if items.len() == 1 {
        lemma_after_preceded(s, earlier, items.last());
    } else if items.len() > 1 {
        let before = s.after_layered(items.drop_last());
        lemma_after_layered_preceded(s, earlier, items.drop_last());
        lemma_flushed_preceded(before, earlier);
        lemma_after_preceded(before.flushed(), earlier, items.last());
    }
}

/// The submissions of each item rendered by itself, one item after the
/// other.
pub open spec fn one_by_one(items: Seq<RenderTree>) -> Seq<Draw>
    decreases items.len(),
{
    if items.len() == 0 {
        Seq::empty()
    } else {
        one_by_one(items.drop_last()) + submissions(items.last())
    }
}

/// After the last of some layers is closed, the submissions are those of
/// the layers rendered one by one, and nothing is open.
pub proof fn lemma_layers_closed(items: Seq<RenderTree>)
    ensures
        Accumulation::empty().after_layered(items).flushed() == Accumulation::empty().preceded_by(
            one_by_one(items),
        ),
    decreases items.len(),
{
    let none = Accumulation::empty();
    let got = none.after_layered(items).flushed();
    let want = none.preceded_by(one_by_one(items));
    if items.len() == 0 {
        assert(got.done =~= want.done);
    } else if items.len() == 1 {
        assert(one_by_one(items.drop_last()) =~= Seq::<Draw>::empty());
        assert(got.done =~= want.done);
    } else {
        let rest = items.drop_last();
        let earlier = one_by_one(rest);
        lemma_layers_closed(rest);
        lemma_after_preceded(none, earlier, items.last());
        lemma_flushed_preceded(none.after(items.last()), earlier);
        assert(none.preceded_by(earlier).after(items.last()).flushed() == none.after(
            items.last(),
        ).flushed().preceded_by(earlier));
        assert(got.done =~= want.done);
    }
}

/// Layers do not mix: rendering `Layered(items)` makes the submissions of
/// the first item, then those of the second, and so on, each as if the item
/// had been rendered alone. So whatever a layer draws is submitted before
/// anything that the next layer draws.
pub proof fn law_layers_do_not_mix(items: Seq<RenderTree>)
    ensures
        submissions(RenderTree::Layered(items)) == one_by_one(items),
{
    lemma_layers_closed(items);
    assert(Accumulation::empty().preceded_by(one_by_one(items)).done =~= one_by_one(items));
}

/// What a tree holds, read from left to right, with the content left out:
/// a word, some quads of a texture, or the boundary between two layers.
pub enum Mark {
    Word,
    Quads { texture: TextureRef, count: nat },
    Cut,
}

/// The marks of a tree.
pub open spec fn marks(tree: RenderTree) -> Seq<Mark>
    decreases tree,
{
    match tree {
        RenderTree::Nothing => Seq::empty(),
        RenderTree::Layered(items) => marks_layered(items),
        RenderTree::Adjacent(items) => marks_adjacent(items),
        RenderTree::Text { word, offset } => seq![Mark::Word],
        RenderTree::Image { texture, renderables } => seq![
            Mark::Quads { texture, count: renderables.len() },
        ],
    }
}

/// The marks of adjacent items: those of each item, with nothing between.
pub open spec fn marks_adjacent(items: Seq<RenderTree>) -> Seq<Mark>
    decreases items,
{
    if items.len() == 0 {
        Seq::empty()
    } else {
        marks_adjacent(items.drop_last()) + marks(items.last())
    }
}

/// The marks of layers: those of each layer, with one cut between each two.
pub open spec fn marks_layered(items: Seq<RenderTree>) -> Seq<Mark>
    decreases items,
{
    if items.len() == 0 {
        Seq::empty()
    } else if items.len() == 1 {
        marks(items.last())
    } else {
        marks_layered(items.drop_last()).push(Mark::Cut) + marks(items.last())
    }
}

/// Which runs are open at some point of a sequence of marks: whether a run
/// of words is, and the texture of the run of quads if one is.
pub struct OpenRuns {
    pub text: bool,
    pub quads: Option<TextureRef>,
}

impl OpenRuns {
    /// No run is open.
    pub open spec fn none() -> OpenRuns {
        OpenRuns { text: false, quads: None }
    }

    /// How many runs are open.
    pub open spec fn count(self) -> nat {
        (if self.text {
            1nat
        } else {
            0nat
        }) + (if self.quads is Some {
            1nat
        } else {
            0nat
        })
    }

    /// Whether the open runs end before `mark`: at a cut, and at quads of a
    /// texture other than that of the open quads. Words end no run.
    pub open spec fn ends_before(self, mark: Mark) -> bool {
        match mark {
            Mark::Word => false,
            Mark::Quads { texture, count } => self.quads is Some && self.quads != Some(texture),
            Mark::Cut => true,
        }
    }

    /// The runs that are open after `mark`.
    pub open spec fn next(self, mark: Mark) -> OpenRuns {
        let start = if self.ends_before(mark) {
            OpenRuns::none()
        } else {
            self
        };
        match mark {
            Mark::Word => OpenRuns { text: true, ..start },
            Mark::Quads { texture, count } => if count > 0 {
                OpenRuns { quads: Some(texture), ..start }
            } else {
                start
            },
            Mark::Cut => start,
        }
    }
}

/// The runs that are open after `marks`, when `from` were open before.
pub open spec fn open_after(marks: Seq<Mark>, from: OpenRuns) -> OpenRuns
    decreases marks.len(),
{
    if marks.len() == 0 {
        from
    } else {
        open_after(marks.drop_last(), from).next(marks.last())
    }
}

/// How many runs end within `marks`, when `from` were open before.
pub open spec fn ended_within(marks: Seq<Mark>, from: OpenRuns) -> nat
    decreases marks.len(),
{
    if marks.len() == 0 {
        0
    } else {
        let open = open_after(marks.drop_last(), from);
        ended_within(marks.drop_last(), from) + (if open.ends_before(marks.last()) {
            open.count()
        } else {
            0
        })
    }
}

/// The number of maximal runs in `marks`: runs of words, and runs of quads
/// of one texture, where a cut ends every run and a change of texture ends
/// both the quads and the words that came with them.
pub open spec fn run_count(marks: Seq<Mark>) -> nat {
    ended_within(marks, OpenRuns::none()) + open_after(marks, OpenRuns::none()).count()
}

/// The runs that an accumulator holds open.
pub open spec fn open_runs(s: Accumulation) -> OpenRuns {
    OpenRuns {
        text: s.text.len() > 0,
        quads: if s.quads.len() > 0 {
            s.texture
        } else {
            None
        },
    }
}

/// Marks read one part after the other.
pub proof fn lemma_marks_joined(a: Seq<Mark>, b: Seq<Mark>, from: OpenRuns)
    ensures
        open_after(a + b, from) == open_after(b, open_after(a, from)),
        ended_within(a + b, from) == ended_within(a, from) + ended_within(
            b,
            open_after(a, from),
        ),
    decreases b.len(),
{
    if b.len() == 0 {
        assert(a + b =~= a);
    } else {
        assert((a + b).drop_last() =~= a + b.drop_last());
        assert((a + b).last() == b.last());
        lemma_marks_joined(a, b.drop_last(), from);
    }
}

/// Closing the runs submits one draw for each open run.
pub proof fn lemma_count_flushed(s: Accumulation)
    requires
        s.well_formed(),
    ensures
        s.flushed().done.len() == s.done.len() + open_runs(s).count(),
        s.flushed().idle(),
        s.flushed().well_formed(),
        open_runs(s.flushed()) == OpenRuns::none(),
{
}

/// Walking a tree submits one draw for each run that ends within it.
pub proof fn lemma_count_after(s: Accumulation, tree: RenderTree)
    requires
        s.well_formed(),
    ensures
        s.after(tree).well_formed(),
        s.after(tree).done.len() == s.done.len() + ended_within(marks(tree), open_runs(s)),
        open_runs(s.after(tree)) == open_after(marks(tree), open_runs(s)),
    decreases tree,
{
    let from = open_runs(s);
    match tree {
        RenderTree::Nothing => {},
        RenderTree::Layered(items) => {
            lemma_count_after_layered(s, items);
        },
        RenderTree::Adjacent(items) => {
            lemma_count_after_adjacent(s, items);
        },
        RenderTree::Text { word, offset } => {
            let m = marks(tree);
            assert(m.drop_last() =~= Seq::<Mark>::empty());
            assert(m.last() == Mark::Word);
            assert(open_after(m.drop_last(), from) == from);
            assert(ended_within(m.drop_last(), from) == 0);
        },
        RenderTree::Image { texture, renderables } => {
            let m = marks(tree);
            assert(m.drop_last() =~= Seq::<Mark>::empty());
            assert(m.last() == Mark::Quads { texture, count: renderables.len() });
            assert(open_after(m.drop_last(), from) == from);
            assert(ended_within(m.drop_last(), from) == 0);
            lemma_count_flushed(s);
        },
    }
}

/// Walking adjacent items submits one draw for each run that ends within
/// them.
pub proof fn lemma_count_after_adjacent(s: Accumulation, items: Seq<RenderTree>)
    requires
        s.well_formed(),
    ensures
        s.after_adjacent(items).well_formed(),
        s.after_adjacent(items).done.len() == s.done.len() + ended_within(
            marks_adjacent(items),
            open_runs(s),
        ),
        open_runs(s.after_adjacent(items)) == open_after(marks_adjacent(items), open_runs(s)),
    decreases items,
{
    if items.len() > 0 {
        let before = s.after_adjacent(items.drop_last());
        lemma_count_after_adjacent(s, items.drop_last());
        lemma_count_after(before, items.last());
        lemma_marks_joined(marks_adjacent(items.drop_last()), marks(items.last()), open_runs(s));
    }
}

/// Walking layers submits one draw for each run that ends within them.
pub proof fn lemma_count_after_layered(s: Accumulation, items: Seq<RenderTree>)
    requires
        s.well_formed(),
    ensures
        s.after_layered(items).well_formed(),
        s.after_layered(items).done.len() == s.done.len() + ended_within(
            marks_layered(items),
            open_runs(s),
        ),
        open_runs(s.after_layered(items)) == open_after(marks_layered(items), open_runs(s)),
    decreases items,
{
    let from = open_runs(s);
    if items.len() == 1 {
        lemma_count_after(s, items.last());
    } else if items.len() > 1 {
        let before = s.after_layered(items.drop_last());
        let earlier = marks_layered(items.drop_last());
        lemma_count_after_layered(s, items.drop_last());
        lemma_count_flushed(before);
        lemma_count_after(before.flushed(), items.last());
        let cut = earlier.push(Mark::Cut);
        assert(cut.drop_last() =~= earlier);
        assert(cut.last() == Mark::Cut);
        lemma_marks_joined(cut, marks(items.last()), from);
    }
}

/// Rendering a tree makes exactly as many submissions as the tree has
/// maximal runs: adjacent items never end a run, a layer boundary ends
/// every open run, and so does a change of texture.
pub proof fn law_one_submission_per_run(tree: RenderTree)
    ensures
        submissions(tree).len() == run_count(marks(tree)),
{
    let none = Accumulation::empty();
    assert(open_runs(none) == OpenRuns::none());
    lemma_count_after(none, tree);
    lemma_count_flushed(none.after(tree));
}

/// `Nothing` leaves the accumulator as it was, and rendered alone it makes
/// no submission.
pub proof fn law_nothing_draws_nothing(s: Accumulation)
    ensures
        s.after(RenderTree::Nothing) == s,
        submissions(RenderTree::Nothing) == Seq::<Draw>::empty(),
{
    assert(submissions(RenderTree::Nothing) =~= Seq::<Draw>::empty());
}

/// Walking adjacent items one part after the other.
pub proof fn lemma_adjacent_joined(s: Accumulation, a: Seq<RenderTree>, b: Seq<RenderTree>)
    ensures
        s.after_adjacent(a + b) == s.after_adjacent(a).after_adjacent(b),
    decreases b.len(),
{
    if b.len() == 0 {
        assert(a + b =~= a);
    } else {
        assert((a + b).drop_last() =~= a + b.drop_last());
        assert((a + b).last() == b.last());
        lemma_adjacent_joined(s, a, b.drop_last());
    }
}

/// A `Nothing` among adjacent items changes nothing, wherever it stands
/// and whatever was accumulated before.
pub proof fn law_nothing_among_adjacent(s: Accumulation, items: Seq<RenderTree>, at: int)
    requires
        0 <= at <= items.len(),
    ensures
        s.after_adjacent(items.insert(at, RenderTree::Nothing)) == s.after_adjacent(items),
{
    let head = items.take(at);
    let tail = items.skip(at);
    let gap = seq![RenderTree::Nothing];
    assert(items.insert(at, RenderTree::Nothing) =~= (head + gap) + tail);
    assert(items =~= head + tail);
    lemma_adjacent_joined(s, head + gap, tail);
    lemma_adjacent_joined(s, head, tail);
    assert((head + gap).drop_last() =~= head);
    assert((head + gap).last() == RenderTree::Nothing);
    assert(s.after_adjacent(head + gap) == s.after_adjacent(head).after(RenderTree::Nothing));
}

/// Items rendered one by one, one part after the other.
pub proof fn lemma_one_by_one_joined(a: Seq<RenderTree>, b: Seq<RenderTree>)
    ensures
        one_by_one(a + b) == one_by_one(a) + one_by_one(b),
    decreases b.len(),
{
    if b.len() == 0 {
        assert(a + b =~= a);
        assert(one_by_one(a) + one_by_one(b) =~= one_by_one(a));
    } else {
        assert((a + b).drop_last() =~= a + b.drop_last());
        assert((a + b).last() == b.last());
        lemma_one_by_one_joined(a, b.drop_last());
        assert(one_by_one(a + b) =~= one_by_one(a) + one_by_one(b));
    }
}

/// A `Nothing` among the layers of a tree changes no submission, wherever
/// it stands.
pub proof fn law_nothing_among_layers(items: Seq<RenderTree>, at: int)
    requires
        0 <= at <= items.len(),
    ensures
        submissions(RenderTree::Layered(items.insert(at, RenderTree::Nothing))) == submissions(
            RenderTree::Layered(items),
        ),
{
    let head = items.take(at);
    let tail = items.skip(at);
    let gap = seq![RenderTree::Nothing];
    assert(items.insert(at, RenderTree::Nothing) =~= (head + gap) + tail);
    assert(items =~= head + tail);
    law_layers_do_not_mix(items.insert(at, RenderTree::Nothing));
    law_layers_do_not_mix(items);
    lemma_one_by_one_joined(head + gap, tail);
    lemma_one_by_one_joined(head, tail);
    assert((head + gap).drop_last() =~= head);
    assert((head + gap).last() == RenderTree::Nothing);
    assert(submissions(RenderTree::Nothing) =~= Seq::<Draw>::empty());
    assert(one_by_one(head + gap) =~= one_by_one(head));
}

/// Walking layers one part after the other: the runs are closed between
/// the parts.
pub proof fn lemma_layered_joined(s: Accumulation, a: Seq<RenderTree>, b: Seq<RenderTree>)
    requires
        a.len() > 0,
        b.len() > 0,
    ensures
        s.after_layered(a + b) == s.after_layered(a).flushed().after_layered(b),
    decreases b.len(),
{
    assert((a + b).drop_last() =~= a + b.drop_last());
    assert((a + b).last() == b.last());
    if b.len() == 1 {
        assert(a + b.drop_last() =~= a);
    } else {
        lemma_layered_joined(s, a, b.drop_last());
    }
}

/// Closing the runs twice is closing them once.
pub proof fn lemma_flushed_twice(s: Accumulation)
    ensures
        s.flushed().flushed() == s.flushed(),
{
    assert(s.flushed().flushed().done =~= s.flushed().done);
}

/// A `Nothing` between two layers changes nothing, whatever was
/// accumulated before: the runs are closed between the two layers either
/// way. A `Nothing` as the first or the last layer is another matter: it
/// makes a layer boundary where there was none, which closes runs that
/// were open.
pub proof fn law_nothing_between_layers(s: Accumulation, items: Seq<RenderTree>, at: int)
    requires
        0 < at < items.len(),
    ensures
        s.after_layered(items.insert(at, RenderTree::Nothing)) == s.after_layered(items),
{
    let head = items.take(at);
    let tail = items.skip(at);
    let gap = seq![RenderTree::Nothing];
    assert(items.insert(at, RenderTree::Nothing) =~= (head + gap) + tail);
    assert(items =~= head + tail);
    lemma_layered_joined(s, head + gap, tail);
    lemma_layered_joined(s, head, gap);
    lemma_layered_joined(s, head, tail);
    assert(gap.drop_last() =~= Seq::<RenderTree>::empty());
    let closed = s.after_layered(head).flushed();
    assert(gap.len() == 1 && gap.last() == RenderTree::Nothing);
    assert(closed.after_layered(gap) == closed.after(gap.last()));
    assert(closed.after(RenderTree::Nothing) == closed);
    lemma_flushed_twice(s.after_layered(head));
}

/// The submission that draws `renderables` from `texture`: none where
/// there is nothing to draw.
pub open spec fn image_alone(texture: TextureRef, renderables: Seq<Renderable>) -> Seq<Draw> {
    if renderables.len() > 0 {
        seq![Draw::Image { texture, renderables }]
    } else {
        Seq::empty()
    }
}

/// The accumulator after two adjacent items.
proof fn lemma_pair(first: RenderTree, second: RenderTree)
    ensures
        Accumulation::empty().after_adjacent(seq![first, second]) == Accumulation::empty().after(
            first,
        ).after(second),
{
    let none = Accumulation::empty();
    let both = seq![first, second];
    assert(both.drop_last() =~= seq![first]);
    assert(both.last() == second);
    assert(seq![first].drop_last() =~= Seq::<RenderTree>::empty());
    assert(seq![first].last() == first);
    assert(none.after_adjacent(seq![first]) == none.after_adjacent(
        Seq::<RenderTree>::empty(),
    ).after(first));
    assert(none.after_adjacent(both) == none.after_adjacent(seq![first]).after(second));
}

/// Two adjacent images of the same texture are drawn with one submission,
/// which holds the shapes of the first and then those of the second.
pub proof fn law_same_texture_merges(
    texture: TextureRef,
    first: Seq<Renderable>,
    second: Seq<Renderable>,
)
    ensures
        submissions(
            RenderTree::Adjacent(
                seq![
                    RenderTree::Image { texture, renderables: first },
                    RenderTree::Image { texture, renderables: second },
                ],
            ),
        ) == image_alone(texture, first + second),
{
    let a = RenderTree::Image { texture, renderables: first };
    let b = RenderTree::Image { texture, renderables: second };
    lemma_pair(a, b);
    let end = Accumulation::empty().after(a).after(b);
    assert(end.quads =~= first + second);
    assert(end.flushed().done =~= image_alone(texture, first + second));
}

/// Two adjacent images of different textures are drawn with one submission
/// each, the first image first. An image without shapes has no submission.
pub proof fn law_other_texture_splits(
    first_texture: TextureRef,
    first: Seq<Renderable>,
    second_texture: TextureRef,
    second: Seq<Renderable>,
)
    requires
        first_texture != second_texture,
    ensures
        submissions(
            RenderTree::Adjacent(
                seq![
                    RenderTree::Image { texture: first_texture, renderables: first },
                    RenderTree::Image { texture: second_texture, renderables: second },
                ],
            ),
        ) == image_alone(first_texture, first) + image_alone(second_texture, second),
{
    let a = RenderTree::Image { texture: first_texture, renderables: first };
    let b = RenderTree::Image { texture: second_texture, renderables: second };
    lemma_pair(a, b);
    let none = Accumulation::empty();
    let mid = none.after(a);
    let end = mid.after(b);
    assert(mid.quads =~= first);
    if first.len() > 0 {
        assert(mid.flushed().done =~= image_alone(first_texture, first));
        assert(end.quads =~= second);
    } else {
        assert(end.quads =~= second);
    }
    assert(end.flushed().done =~= image_alone(first_texture, first) + image_alone(
        second_texture,
        second,
    ));
}

} // verus!
