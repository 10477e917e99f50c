use qs_client::geometry::{Extent, Layout, Point};
use qs_client::multi_batch::{MultiRenderable, Renderable, RenderableWord, TextureRef, Vertex};
use qs_client::render_info::{
    combine_adjacent, combine_layers, debug_outline, outline_quads, without_nothing, LINE_WIDTH,
};

fn white(x: i64, y: i64) -> Vertex {
    Vertex { position: (x, y, 0), color: (255, 255, 255, 255), tex_coords: (0, 0) }
}

fn quad(a: (i64, i64), b: (i64, i64), c: (i64, i64), d: (i64, i64)) -> Renderable {
    Renderable::Quadrilateral(white(a.0, a.1), white(b.0, b.1), white(c.0, c.1), white(d.0, d.1))
}

fn word(id: u64) -> MultiRenderable {
    MultiRenderable::Text { word: RenderableWord { id }, offset: Point { x: 0, y: 0 } }
}

#[test]
fn outline_has_four_lines_of_width_one() {
    assert_eq!(LINE_WIDTH, 1);
    let at = Layout { size: Extent { width: 30, height: 40 }, location: Point { x: 10, y: 20 } };
    assert_eq!(
        outline_quads(&at),
        vec![
            quad((10, -20), (11, -20), (11, -60), (10, -60)),
            quad((40, -20), (39, -20), (39, -60), (40, -60)),
            quad((10, -20), (10, -19), (40, -19), (40, -20)),
            quad((10, -60), (10, -61), (40, -61), (40, -60)),
        ]
    );
}

#[test]
fn outline_saturates_at_the_ends_of_the_range() {
    let at = Layout {
        size: Extent { width: 10, height: 10 },
        location: Point { x: i64::MAX - 5, y: i64::MIN },
    };
    let x0 = i64::MAX - 5;
    let y0 = i64::MAX;
    let x1 = i64::MAX;
    let y1 = i64::MAX - 10;
    assert_eq!(
        outline_quads(&at),
        vec![
            quad((x0, y0), (x0 + 1, y0), (x0 + 1, y1), (x0, y1)),
            quad((x1, y0), (x1 - 1, y0), (x1 - 1, y1), (x1, y1)),
            quad((x0, y0), (x0, y0), (x1, y0), (x1, y0)),
            quad((x0, y1), (x0, y1 - 1), (x1, y1 - 1), (x1, y1)),
        ]
    );
}

#[test]
fn debug_outline_is_an_image_of_the_line_texture() {
    let at = Layout { size: Extent { width: 3, height: 4 }, location: Point { x: 1, y: 2 } };
    assert_eq!(
        debug_outline(TextureRef { id: 4 }, &at),
        MultiRenderable::Image { texture: TextureRef { id: 4 }, renderables: outline_quads(&at) }
    );
}

#[test]
fn no_adjacent_items_collapse_to_nothing() {
    assert_eq!(combine_adjacent(vec![]), MultiRenderable::Nothing);
    assert_eq!(combine_adjacent(vec![MultiRenderable::Nothing]), MultiRenderable::Nothing);
    assert_eq!(
        combine_adjacent(vec![MultiRenderable::Nothing, MultiRenderable::Nothing]),
        MultiRenderable::Nothing
    );
}

#[test]
fn nothing_is_dropped_from_adjacent_items() {
    assert_eq!(combine_adjacent(vec![word(1)]), MultiRenderable::Adjacent(vec![word(1)]));
    assert_eq!(
        combine_adjacent(vec![MultiRenderable::Nothing, word(1)]),
        MultiRenderable::Adjacent(vec![word(1)])
    );
    assert_eq!(
        combine_adjacent(vec![
            word(1),
            MultiRenderable::Nothing,
            word(2),
            MultiRenderable::Nothing,
            word(3),
        ]),
        MultiRenderable::Adjacent(vec![word(1), word(2), word(3)])
    );
    assert_eq!(
        combine_adjacent(vec![MultiRenderable::Adjacent(vec![]), word(1)]),
        MultiRenderable::Adjacent(vec![MultiRenderable::Adjacent(vec![]), word(1)])
    );
}

#[test]
fn without_nothing_keeps_the_order_of_the_rest() {
    assert_eq!(without_nothing(vec![]), vec![]);
    assert_eq!(without_nothing(vec![MultiRenderable::Nothing]), vec![]);
    assert_eq!(
        without_nothing(vec![word(2), MultiRenderable::Nothing, word(1), MultiRenderable::Nothing]),
        vec![word(2), word(1)]
    );
}

#[test]
fn content_without_backgrounds_stands_alone() {
    assert_eq!(combine_layers(vec![], word(1)), word(1));
    assert_eq!(combine_layers(vec![], MultiRenderable::Nothing), MultiRenderable::Nothing);
}

#[test]
fn single_layer_collapses_to_itself() {
    assert_eq!(combine_layers(vec![word(1)], MultiRenderable::Nothing), word(1));
    assert_eq!(combine_layers(vec![MultiRenderable::Nothing], word(2)), word(2));
    assert_eq!(
        combine_layers(
            vec![MultiRenderable::Nothing, word(1), MultiRenderable::Nothing],
            MultiRenderable::Nothing
        ),
        word(1)
    );
}

#[test]
fn layers_that_are_all_nothing_collapse_to_nothing() {
    assert_eq!(
        combine_layers(vec![MultiRenderable::Nothing], MultiRenderable::Nothing),
        MultiRenderable::Nothing
    );
    assert_eq!(
        combine_layers(
            vec![MultiRenderable::Nothing, MultiRenderable::Nothing],
            MultiRenderable::Nothing
        ),
        MultiRenderable::Nothing
    );
}

#[test]
fn nothing_is_dropped_from_the_layers() {
    assert_eq!(
        combine_layers(vec![word(1), MultiRenderable::Nothing, word(2)], word(3)),
        MultiRenderable::Layered(vec![word(1), word(2), word(3)])
    );
    assert_eq!(
        combine_layers(vec![MultiRenderable::Nothing, word(1)], word(2)),
        MultiRenderable::Layered(vec![word(1), word(2)])
    );
}

#[test]
fn content_is_the_last_layer() {
    assert_eq!(
        combine_layers(vec![word(1)], word(2)),
        MultiRenderable::Layered(vec![word(1), word(2)])
    );
    assert_eq!(
        combine_layers(vec![word(1), word(2)], MultiRenderable::Nothing),
        MultiRenderable::Layered(vec![word(1), word(2)])
    );
    assert_eq!(
        combine_layers(vec![word(1), word(2)], word(3)),
        MultiRenderable::Layered(vec![word(1), word(2), word(3)])
    );
}
