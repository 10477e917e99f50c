use qs_client::geometry::{Extent, Layout, Point};
use qs_client::multi_batch::{
    MultiBatch, MultiRenderable, Renderable, Submission, TextureRef, Vertex,
};
use qs_client::signal::SignalTable;
use qs_client::ui::UI;
use qs_client::widget::{UiElement, Widget};
use stretch::geometry::Size;
use stretch::number::Number;
use stretch::style::{Dimension, Style};
use winit::event::{ElementState, MouseButton};

/// An element that writes down what it is told.
struct Probe {
    size: Size<Dimension>,
    takes: bool,
    draws: Option<u64>,
    log: Vec<String>,
}

fn probe(width: f32, height: f32) -> Probe {
    Probe {
        size: Size { width: Dimension::Points(width), height: Dimension::Points(height) },
        takes: false,
        draws: None,
        log: Vec::new(),
    }
}

fn mark(layout: &Layout) -> Renderable {
    let v = Vertex {
        position: (layout.location.x, layout.location.y, 0),
        color: (0, 0, 0, 0),
        tex_coords: (0, 0),
    };
    let w = Vertex {
        position: (layout.size.width, layout.size.height, 0),
        color: (0, 0, 0, 0),
        tex_coords: (0, 0),
    };
    Renderable::Quadrilateral(v, w, v, w)
}

impl UiElement for Probe {
    fn get_size(&self) -> Size<Dimension> {
        self.size
    }

    fn generate_render_info(&self, layout: &Layout) -> MultiRenderable {
        match self.draws {
            Some(id) => MultiRenderable::Image {
                texture: TextureRef { id },
                renderables: vec![mark(layout)],
            },
            None => MultiRenderable::Nothing,
        }
    }

    fn process_mouse_input(&mut self, button: MouseButton, state: ElementState) -> bool {
        self.log.push(format!("input {:?} {:?}", button, state));
        self.takes
    }

    fn mouse_enter(&mut self) {
        self.log.push(format!("enter"));
    }

    fn mouse_move(&mut self, pos: Point) {
        self.log.push(format!("move {} {}", pos.x, pos.y));
    }

    fn mouse_leave(&mut self) {
        self.log.push(format!("leave"));
    }
}

fn leaf(element: Probe) -> Widget<Probe> {
    Widget::new(element, Vec::new(), Vec::new(), Style::default())
}

fn room(width: f32, height: f32) -> Size<Number> {
    Size { width: Number::Defined(width), height: Number::Defined(height) }
}

fn rect(x: i64, y: i64, width: i64, height: i64) -> Layout {
    Layout { size: Extent { width, height }, location: Point { x, y } }
}

fn log_of(widget: &Widget<Probe>) -> Vec<String> {
    widget.0.element().log.clone()
}

#[test]
fn new_widget_is_detached_and_not_laid_out() {
    let child = leaf(probe(1.0, 1.0));
    let widget = Widget::new(probe(2.0, 2.0), vec![child], vec![probe(3.0, 3.0)], Style::default());
    assert_eq!(widget.0.layout(), None);
    assert_eq!(widget.0.hover_position(), None);
    assert_eq!(widget.0.force_layout_signal(), None);
    assert_eq!(widget.0.children().len(), 1);
    assert_eq!(widget.0.backgrounds().len(), 1);
    assert_eq!(widget.0.element().size.width, Dimension::Points(2.0));
}

#[test]
fn widget_without_layout_draws_nothing() {
    let mut element = probe(2.0, 2.0);
    element.draws = Some(1);
    let widget = leaf(element);
    let drawn = widget.generate_render_info(Point { x: 0, y: 0 }, Some(TextureRef { id: 9 }));
    assert_eq!(drawn, MultiRenderable::Nothing);
}

#[test]
fn interface_starts_with_a_raised_flag() {
    let mut signals = SignalTable::new();
    let ui = UI::new(leaf(probe(10.0, 10.0)), room(100.0, 100.0), &mut signals);
    assert!(signals.is_raised(ui.signal()));
    assert_eq!(ui.root().0.force_layout_signal(), Some(ui.signal()));
    assert_eq!(ui.mouse_position(), Point { x: 0, y: 0 });
    assert_eq!(ui.root().0.layout(), None);
}

#[test]
fn signal_reaches_every_widget() {
    let mut signals = SignalTable::new();
    let inner = leaf(probe(1.0, 1.0));
    let middle = Widget::new(probe(2.0, 2.0), vec![inner], Vec::new(), Style::default());
    let root = Widget::new(probe(3.0, 3.0), vec![middle], Vec::new(), Style::default());
    let other = UI::new(leaf(probe(1.0, 1.0)), room(1.0, 1.0), &mut signals);
    let ui = UI::new(root, room(100.0, 100.0), &mut signals);
    let signal = Some(ui.signal());
    assert_ne!(ui.signal(), other.signal());
    assert_eq!(ui.root().0.force_layout_signal(), signal);
    let middle = &ui.root().0.children()[0];
    assert_eq!(middle.0.force_layout_signal(), signal);
    assert_eq!(middle.0.children()[0].0.force_layout_signal(), signal);
}

#[test]
fn layout_follows_the_sizes_that_elements_ask_for() {
    let mut signals = SignalTable::new();
    let root = Widget::new(
        probe(100.0, 80.0),
        vec![leaf(probe(30.0, 20.0)), leaf(probe(40.0, 25.0))],
        Vec::new(),
        Style::default(),
    );
    let mut ui = UI::new(root, room(200.0, 200.0), &mut signals);
    assert_eq!(ui.resolve_layout(&mut signals), Ok(()));
    assert!(!signals.is_raised(ui.signal()));
    assert_eq!(ui.root().0.layout(), Some(rect(0, 0, 100, 80)));
    assert_eq!(ui.root().0.children()[0].0.layout(), Some(rect(0, 0, 30, 20)));
    assert_eq!(ui.root().0.children()[1].0.layout(), Some(rect(30, 0, 40, 25)));
}

#[test]
fn styles_of_the_widgets_reach_the_solver() {
    let mut signals = SignalTable::new();
    let column =
        Style { flex_direction: stretch::style::FlexDirection::Column, ..Style::default() };
    let root = Widget::new(
        probe(100.0, 80.0),
        vec![leaf(probe(30.0, 20.0)), leaf(probe(40.0, 25.0))],
        Vec::new(),
        column,
    );
    let mut ui = UI::new(root, room(200.0, 200.0), &mut signals);
    assert_eq!(ui.resolve_layout(&mut signals), Ok(()));
    assert_eq!(ui.root().0.children()[0].0.layout(), Some(rect(0, 0, 30, 20)));
    assert_eq!(ui.root().0.children()[1].0.layout(), Some(rect(0, 20, 40, 25)));
}

#[test]
fn nested_widgets_get_their_own_rectangles() {
    let mut signals = SignalTable::new();
    let inner = Widget::new(
        probe(50.0, 50.0),
        vec![leaf(probe(5.0, 6.0)), leaf(probe(7.0, 8.0))],
        Vec::new(),
        Style::default(),
    );
    let root = Widget::new(
        probe(100.0, 80.0),
        vec![leaf(probe(10.0, 10.0)), inner, leaf(probe(20.0, 20.0))],
        Vec::new(),
        Style::default(),
    );
    let mut ui = UI::new(root, room(200.0, 200.0), &mut signals);
    assert_eq!(ui.resolve_layout(&mut signals), Ok(()));
    let children = ui.root().0.children();
    assert_eq!(ui.root().0.layout(), Some(rect(0, 0, 100, 80)));
    assert_eq!(children[0].0.layout(), Some(rect(0, 0, 10, 10)));
    assert_eq!(children[1].0.layout(), Some(rect(10, 0, 50, 50)));
    assert_eq!(children[1].0.children()[0].0.layout(), Some(rect(0, 0, 5, 6)));
    assert_eq!(children[1].0.children()[1].0.layout(), Some(rect(5, 0, 7, 8)));
    assert_eq!(children[2].0.layout(), Some(rect(60, 0, 20, 20)));
}

#[test]
fn second_pass_changes_nothing() {
    let mut signals = SignalTable::new();
    let root = Widget::new(
        probe(100.0, 80.0),
        vec![leaf(probe(30.0, 20.0))],
        Vec::new(),
        Style::default(),
    );
    let mut ui = UI::new(root, room(200.0, 200.0), &mut signals);
    assert_eq!(ui.resolve_layout(&mut signals), Ok(()));
    let first = (ui.root().0.layout(), ui.root().0.children()[0].0.layout());
    assert_eq!(ui.resolve_layout(&mut signals), Ok(()));
    let second = (ui.root().0.layout(), ui.root().0.children()[0].0.layout());
    assert_eq!(first, second);
    assert_eq!(first, (Some(rect(0, 0, 100, 80)), Some(rect(0, 0, 30, 20))));
    assert!(!signals.is_raised(ui.signal()));
}

#[test]
fn new_size_asks_for_a_new_layout() {
    let mut signals = SignalTable::new();
    let mut element = probe(0.0, 0.0);
    element.size = Size { width: Dimension::Percent(1.0), height: Dimension::Percent(1.0) };
    let mut ui = UI::new(leaf(element), room(100.0, 80.0), &mut signals);
    assert_eq!(ui.resolve_layout(&mut signals), Ok(()));
    assert_eq!(ui.root().0.layout(), Some(rect(0, 0, 100, 80)));
    ui.update_size(room(200.0, 50.0), &mut signals);
    assert!(signals.is_raised(ui.signal()));
    assert_eq!(ui.root().0.layout(), Some(rect(0, 0, 100, 80)));
    assert_eq!(ui.resolve_layout(&mut signals), Ok(()));
    assert_eq!(ui.root().0.layout(), Some(rect(0, 0, 200, 50)));
}

#[test]
fn add_child_signals_an_attached_widget_once() {
    let mut signals = SignalTable::new();
    let mut ui = UI::new(leaf(probe(100.0, 80.0)), room(200.0, 200.0), &mut signals);
    assert_eq!(ui.resolve_layout(&mut signals), Ok(()));
    assert!(!signals.is_raised(ui.signal()));
    ui.root_mut().0.add_child(leaf(probe(30.0, 20.0)), &mut signals);
    assert!(signals.is_raised(ui.signal()));
    let child = &ui.root().0.children()[0];
    assert_eq!(child.0.force_layout_signal(), Some(ui.signal()));
    assert_eq!(child.0.layout(), None);
    assert_eq!(ui.resolve_layout(&mut signals), Ok(()));
    assert_eq!(ui.root().0.children()[0].0.layout(), Some(rect(0, 0, 30, 20)));
}

#[test]
fn add_child_to_a_detached_widget_signals_nobody() {
    let mut signals = SignalTable::new();
    let mut ui = UI::new(leaf(probe(100.0, 80.0)), room(200.0, 200.0), &mut signals);
    assert_eq!(ui.resolve_layout(&mut signals), Ok(()));
    let mut detached = leaf(probe(1.0, 1.0));
    detached.0.add_child(leaf(probe(2.0, 2.0)), &mut signals);
    detached.0.force_layout(&mut signals);
    assert!(!signals.is_raised(ui.signal()));
    assert_eq!(detached.0.children().len(), 1);
    assert_eq!(detached.0.children()[0].0.force_layout_signal(), None);
}

#[test]
fn adopted_subtree_takes_the_signal_of_its_parent() {
    let mut signals = SignalTable::new();
    let first = UI::new(leaf(probe(1.0, 1.0)), room(10.0, 10.0), &mut signals);
    let signal = first.signal();
    let subtree = first.release(&mut signals);
    assert_eq!(subtree.0.force_layout_signal(), Some(signal));
    let mut detached = leaf(probe(1.0, 1.0));
    detached.0.add_child(subtree, &mut signals);
    assert_eq!(detached.0.children()[0].0.force_layout_signal(), None);
}

#[test]
fn widgets_of_a_released_interface_signal_in_vain() {
    let mut signals = SignalTable::new();
    let mut ui = UI::new(leaf(probe(100.0, 80.0)), room(200.0, 200.0), &mut signals);
    assert_eq!(ui.resolve_layout(&mut signals), Ok(()));
    let signal = ui.signal();
    let mut root = ui.release(&mut signals);
    assert!(!signals.is_live(signal));
    root.0.add_child(leaf(probe(1.0, 1.0)), &mut signals);
    root.0.force_layout(&mut signals);
    assert!(!signals.is_raised(signal));
    assert_eq!(root.0.children().len(), 1);
}

#[test]
fn clear_children_removes_them_and_signals() {
    let mut signals = SignalTable::new();
    let root = Widget::new(
        probe(100.0, 80.0),
        vec![leaf(probe(30.0, 20.0)), leaf(probe(40.0, 25.0))],
        Vec::new(),
        Style::default(),
    );
    let mut ui = UI::new(root, room(200.0, 200.0), &mut signals);
    assert_eq!(ui.resolve_layout(&mut signals), Ok(()));
    ui.root_mut().0.clear_children(&mut signals);
    assert!(signals.is_raised(ui.signal()));
    assert_eq!(ui.root().0.children().len(), 0);
}

#[test]
fn child_mut_reaches_a_nested_widget() {
    let mut signals = SignalTable::new();
    let root = Widget::new(
        probe(100.0, 80.0),
        vec![leaf(probe(30.0, 20.0)), leaf(probe(40.0, 25.0))],
        Vec::new(),
        Style::default(),
    );
    let mut ui = UI::new(root, room(200.0, 200.0), &mut signals);
    assert_eq!(ui.resolve_layout(&mut signals), Ok(()));
    ui.root_mut().0.child_mut(1).0.add_child(leaf(probe(3.0, 4.0)), &mut signals);
    assert!(signals.is_raised(ui.signal()));
    assert_eq!(ui.resolve_layout(&mut signals), Ok(()));
    let nested = &ui.root().0.children()[1].0.children()[0];
    assert_eq!(nested.0.layout(), Some(rect(0, 0, 3, 4)));
    assert_eq!(nested.0.force_layout_signal(), Some(ui.signal()));
}

#[test]
fn hover_enters_moves_and_leaves() {
    let mut signals = SignalTable::new();
    let mut ui = UI::new(leaf(probe(10.0, 10.0)), room(100.0, 100.0), &mut signals);
    assert_eq!(ui.mouse_move(Point { x: 50, y: 50 }, &mut signals), Ok(()));
    assert_eq!(ui.root().0.layout(), Some(rect(0, 0, 10, 10)));
    assert_eq!(log_of(ui.root()), Vec::<String>::new());
    assert_eq!(ui.root().0.hover_position(), None);
    assert_eq!(ui.mouse_position(), Point { x: 50, y: 50 });

    assert_eq!(ui.mouse_move(Point { x: 5, y: 5 }, &mut signals), Ok(()));
    assert_eq!(log_of(ui.root()), vec!["enter", "move 5 5"]);
    assert_eq!(ui.root().0.hover_position(), Some(Point { x: 5, y: 5 }));

    assert_eq!(ui.mouse_move(Point { x: 7, y: 3 }, &mut signals), Ok(()));
    assert_eq!(log_of(ui.root()), vec!["enter", "move 5 5", "move 7 3"]);
    assert_eq!(ui.root().0.hover_position(), Some(Point { x: 7, y: 3 }));

    assert_eq!(ui.mouse_move(Point { x: 50, y: 50 }, &mut signals), Ok(()));
    assert_eq!(log_of(ui.root()), vec!["enter", "move 5 5", "move 7 3", "leave"]);
    assert_eq!(ui.root().0.hover_position(), None);

    assert_eq!(ui.mouse_move(Point { x: 60, y: 60 }, &mut signals), Ok(()));
    assert_eq!(log_of(ui.root()), vec!["enter", "move 5 5", "move 7 3", "leave"]);
}

#[test]
fn every_widget_compares_the_same_position_with_its_own_rectangle() {
    let mut signals = SignalTable::new();
    let root = Widget::new(
        probe(100.0, 80.0),
        vec![leaf(probe(30.0, 20.0)), leaf(probe(40.0, 25.0))],
        Vec::new(),
        Style::default(),
    );
    let mut ui = UI::new(root, room(200.0, 200.0), &mut signals);
    assert_eq!(ui.mouse_move(Point { x: 35, y: 22 }, &mut signals), Ok(()));
    assert_eq!(log_of(ui.root()), vec!["enter", "move 35 22"]);
    assert_eq!(log_of(&ui.root().0.children()[0]), Vec::<String>::new());
    assert_eq!(log_of(&ui.root().0.children()[1]), vec!["enter", "move 5 22"]);
    assert_eq!(ui.root().0.children()[1].0.hover_position(), Some(Point { x: 5, y: 22 }));

    assert_eq!(ui.mouse_move(Point { x: 150, y: 10 }, &mut signals), Ok(()));
    assert_eq!(log_of(ui.root()), vec!["enter", "move 35 22", "leave"]);
    assert_eq!(log_of(&ui.root().0.children()[1]), vec!["enter", "move 5 22", "leave"]);
}

#[test]
fn widget_without_layout_is_never_hovered() {
    let mut root = leaf(probe(10.0, 10.0));
    root.process_mouse_move(Point { x: 0, y: 0 });
    assert_eq!(root.0.hover_position(), None);
    assert_eq!(log_of(&root), Vec::<String>::new());
}

#[test]
fn parent_takes_the_button_before_its_child() {
    let mut signals = SignalTable::new();
    let mut parent = probe(10.0, 10.0);
    parent.takes = true;
    let mut child = probe(5.0, 5.0);
    child.takes = true;
    let root = Widget::new(parent, vec![leaf(child)], Vec::new(), Style::default());
    let mut ui = UI::new(root, room(100.0, 100.0), &mut signals);
    assert!(ui.mouse_input(MouseButton::Left, ElementState::Pressed));
    assert_eq!(log_of(ui.root()), vec!["input Left Pressed"]);
    assert_eq!(log_of(&ui.root().0.children()[0]), Vec::<String>::new());
}

#[test]
fn first_child_that_takes_the_button_ends_the_search() {
    let mut signals = SignalTable::new();
    let mut second = probe(5.0, 5.0);
    second.takes = true;
    let mut third = probe(5.0, 5.0);
    third.takes = true;
    let first = Widget::new(
        probe(5.0, 5.0),
        vec![leaf(probe(1.0, 1.0))],
        Vec::new(),
        Style::default(),
    );
    let root = Widget::new(
        probe(10.0, 10.0),
        vec![first, leaf(second), leaf(third)],
        Vec::new(),
        Style::default(),
    );
    let mut ui = UI::new(root, room(100.0, 100.0), &mut signals);
    assert!(ui.mouse_input(MouseButton::Right, ElementState::Released));
    let asked = vec!["input Right Released"];
    let children = ui.root().0.children();
    assert_eq!(log_of(ui.root()), asked);
    assert_eq!(log_of(&children[0]), asked);
    assert_eq!(log_of(&children[0].0.children()[0]), asked);
    assert_eq!(log_of(&children[1]), asked);
    assert_eq!(log_of(&children[2]), Vec::<String>::new());
}

#[test]
fn button_that_nobody_takes_is_reported_so() {
    let mut signals = SignalTable::new();
    let root = Widget::new(
        probe(10.0, 10.0),
        vec![leaf(probe(1.0, 1.0)), leaf(probe(1.0, 1.0))],
        Vec::new(),
        Style::default(),
    );
    let mut ui = UI::new(root, room(100.0, 100.0), &mut signals);
    assert!(!ui.mouse_input(MouseButton::Left, ElementState::Pressed));
    assert_eq!(log_of(&ui.root().0.children()[1]), vec!["input Left Pressed"]);
    assert!(signals.is_raised(ui.signal()));
}

#[test]
fn settled_button_leaves_the_children_alone() {
    let mut child = probe(5.0, 5.0);
    child.takes = true;
    let mut root = Widget::new(probe(10.0, 10.0), vec![leaf(child)], Vec::new(), Style::default());
    assert!(root.settle_mouse_input(true, MouseButton::Left, ElementState::Pressed));
    assert_eq!(log_of(&root.0.children()[0]), Vec::<String>::new());
    assert!(root.settle_mouse_input(false, MouseButton::Left, ElementState::Pressed));
    assert_eq!(log_of(&root.0.children()[0]), vec!["input Left Pressed"]);
    assert_eq!(
        root.offer_to_children(MouseButton::Left, ElementState::Released),
        Some(0)
    );
}

#[test]
fn render_info_moves_children_by_their_parents() {
    let mut signals = SignalTable::new();
    let mut a = probe(30.0, 20.0);
    a.draws = Some(1);
    let mut b = probe(40.0, 25.0);
    b.draws = Some(1);
    let mut inner = probe(7.0, 8.0);
    inner.draws = Some(2);
    let second = Widget::new(b, vec![leaf(inner)], Vec::new(), Style::default());
    let root =
        Widget::new(probe(100.0, 80.0), vec![leaf(a), second], Vec::new(), Style::default());
    let mut ui = UI::new(root, room(200.0, 200.0), &mut signals);
    let drawn = ui.generate_render_info(Point { x: 5, y: 6 }, None, &mut signals);
    let image = |id: u64, at: Layout| MultiRenderable::Image {
        texture: TextureRef { id },
        renderables: vec![mark(&at)],
    };
    assert_eq!(
        drawn,
        Ok(MultiRenderable::Adjacent(vec![
            MultiRenderable::Adjacent(vec![image(1, rect(5, 6, 30, 20))]),
            MultiRenderable::Adjacent(vec![
                image(1, rect(35, 6, 40, 25)),
                MultiRenderable::Adjacent(vec![image(2, rect(35, 6, 7, 8))]),
            ]),
        ]))
    );
    assert!(!signals.is_raised(ui.signal()));
    let mut batch = MultiBatch::new((), ());
    let made = batch.render(drawn.unwrap());
    assert_eq!(
        made,
        vec![
            Submission::Image {
                texture: TextureRef { id: 1 },
                renderables: vec![mark(&rect(5, 6, 30, 20)), mark(&rect(35, 6, 40, 25))],
            },
            Submission::Image {
                texture: TextureRef { id: 2 },
                renderables: vec![mark(&rect(35, 6, 7, 8))],
            },
        ]
    );
}

#[test]
fn backgrounds_are_layers_below_the_content() {
    let mut signals = SignalTable::new();
    let mut own = probe(10.0, 10.0);
    own.draws = Some(1);
    let mut low = probe(0.0, 0.0);
    low.draws = Some(2);
    let mut high = probe(0.0, 0.0);
    high.draws = Some(3);
    let root = Widget::new(own, Vec::new(), vec![low, high], Style::default());
    let mut ui = UI::new(root, room(200.0, 200.0), &mut signals);
    let drawn = ui.generate_render_info(Point { x: 1, y: 2 }, None, &mut signals);
    let at = rect(1, 2, 10, 10);
    let image = |id: u64| MultiRenderable::Image {
        texture: TextureRef { id },
        renderables: vec![mark(&at)],
    };
    assert_eq!(
        drawn,
        Ok(MultiRenderable::Layered(vec![
            image(2),
            image(3),
            MultiRenderable::Adjacent(vec![image(1)]),
        ]))
    );
}

#[test]
fn debug_texture_outlines_every_widget() {
    let mut signals = SignalTable::new();
    let root =
        Widget::new(probe(30.0, 40.0), vec![leaf(probe(3.0, 4.0))], Vec::new(), Style::default());
    let mut ui = UI::new(root, room(200.0, 200.0), &mut signals);
    let line = TextureRef { id: 9 };
    let drawn = ui.generate_render_info(Point { x: 10, y: 20 }, Some(line), &mut signals);
    let outline = |at: Layout| MultiRenderable::Image {
        texture: line,
        renderables: qs_client::render_info::outline_quads(&at),
    };
    assert_eq!(
        drawn,
        Ok(MultiRenderable::Adjacent(vec![
            MultiRenderable::Adjacent(vec![outline(rect(10, 20, 3, 4))]),
            outline(rect(10, 20, 30, 40)),
        ]))
    );
}

#[test]
fn empty_element_asks_for_nothing_and_draws_nothing() {
    let mut signals = SignalTable::new();
    let root = Widget::new((), vec![Widget::new((), Vec::new(), vec![()], Style::default())], Vec::new(), Style::default());
    let mut ui = UI::new(root, room(200.0, 100.0), &mut signals);
    let drawn = ui.generate_render_info(Point { x: 0, y: 0 }, None, &mut signals).unwrap();
    assert_eq!(drawn, MultiRenderable::Nothing);
    let mut batch = MultiBatch::new((), ());
    assert_eq!(batch.render(drawn), vec![]);
    assert!(!ui.mouse_input(MouseButton::Left, ElementState::Pressed));
    assert_eq!(().get_size(), Size { width: Dimension::Auto, height: Dimension::Auto });
    assert_eq!(
        ().generate_render_info(&rect(0, 0, 1, 1)),
        MultiRenderable::Nothing
    );
}

#[test]
fn changed_element_is_laid_out_anew_once_it_signals() {
    let mut signals = SignalTable::new();
    let mut ui = UI::new(leaf(probe(10.0, 10.0)), room(100.0, 100.0), &mut signals);
    assert_eq!(ui.resolve_layout(&mut signals), Ok(()));
    ui.root_mut().0.element_mut().size =
        Size { width: Dimension::Points(20.0), height: Dimension::Points(30.0) };
    assert!(!signals.is_raised(ui.signal()));
    assert_eq!(ui.resolve_layout(&mut signals), Ok(()));
    assert_eq!(ui.root().0.layout(), Some(rect(0, 0, 10, 10)));
    ui.root().0.force_layout(&mut signals);
    assert!(signals.is_raised(ui.signal()));
    assert_eq!(ui.resolve_layout(&mut signals), Ok(()));
    assert_eq!(ui.root().0.layout(), Some(rect(0, 0, 20, 30)));
}

/// An element that says nothing about the pointer.
struct Quiet(u8);

impl UiElement for Quiet {
    fn get_size(&self) -> Size<Dimension> {
        Size { width: Dimension::Points(10.0), height: Dimension::Points(10.0) }
    }

    fn generate_render_info(&self, _layout: &Layout) -> MultiRenderable {
        MultiRenderable::Nothing
    }
}

#[test]
fn element_that_says_nothing_takes_no_event() {
    let mut quiet = Quiet(7);
    assert!(!quiet.process_mouse_input(MouseButton::Left, ElementState::Pressed));
    assert!(!quiet.process_mouse_input(MouseButton::Right, ElementState::Released));
    assert_eq!(quiet.0, 7);

    let mut signals = SignalTable::new();
    let root = Widget::new(
        Quiet(1),
        vec![Widget::new(Quiet(2), Vec::new(), Vec::new(), Style::default())],
        Vec::new(),
        Style::default(),
    );
    let mut ui = UI::new(root, room(100.0, 100.0), &mut signals);
    assert!(!ui.mouse_input(MouseButton::Left, ElementState::Pressed));
    assert_eq!(ui.mouse_move(Point { x: 5, y: 5 }, &mut signals), Ok(()));
    assert_eq!(ui.root().0.element().0, 1);
    assert_eq!(ui.root().0.children()[0].0.element().0, 2);
    assert_eq!(ui.root().0.hover_position(), Some(Point { x: 5, y: 5 }));
}

#[test]
fn child_is_told_of_a_pointer_that_misses_its_parent() {
    let mut signals = SignalTable::new();
    let root = Widget::new(
        probe(10.0, 10.0),
        vec![leaf(probe(30.0, 30.0))],
        Vec::new(),
        Style { flex_shrink: 0.0, ..Style::default() },
    );
    let mut child_style = Style::default();
    child_style.flex_shrink = 0.0;
    let mut ui = UI::new(root, room(100.0, 100.0), &mut signals);
    ui.root_mut().0.clear_children(&mut signals);
    ui.root_mut().0.add_child(
        Widget::new(probe(30.0, 30.0), Vec::new(), Vec::new(), child_style),
        &mut signals,
    );
    assert_eq!(ui.mouse_move(Point { x: 20, y: 20 }, &mut signals), Ok(()));
    assert_eq!(ui.root().0.layout(), Some(rect(0, 0, 10, 10)));
    assert_eq!(ui.root().0.children()[0].0.layout(), Some(rect(0, 0, 30, 30)));
    assert_eq!(log_of(ui.root()), Vec::<String>::new());
    assert_eq!(ui.root().0.hover_position(), None);
    assert_eq!(log_of(&ui.root().0.children()[0]), vec!["enter", "move 20 20"]);
    assert_eq!(ui.mouse_move(Point { x: 40, y: 20 }, &mut signals), Ok(()));
    assert_eq!(log_of(ui.root()), Vec::<String>::new());
    assert_eq!(log_of(&ui.root().0.children()[0]), vec!["enter", "move 20 20", "leave"]);
}

#[test]
fn widget_whose_element_draws_nothing_draws_nothing() {
    let mut signals = SignalTable::new();
    let mut ui = UI::new(leaf(probe(10.0, 10.0)), room(100.0, 100.0), &mut signals);
    let drawn = ui.generate_render_info(Point { x: 0, y: 0 }, None, &mut signals);
    assert_eq!(ui.root().0.layout(), Some(rect(0, 0, 10, 10)));
    assert_eq!(drawn, Ok(MultiRenderable::Nothing));
}

#[test]
fn single_background_stands_for_the_widget() {
    let mut signals = SignalTable::new();
    let mut back = probe(0.0, 0.0);
    back.draws = Some(4);
    let root = Widget::new(probe(10.0, 10.0), Vec::new(), vec![back], Style::default());
    let mut ui = UI::new(root, room(100.0, 100.0), &mut signals);
    let drawn = ui.generate_render_info(Point { x: 1, y: 2 }, None, &mut signals);
    assert_eq!(
        drawn,
        Ok(MultiRenderable::Image {
            texture: TextureRef { id: 4 },
            renderables: vec![mark(&rect(1, 2, 10, 10))],
        })
    );
}

#[test]
fn background_that_draws_nothing_is_no_layer() {
    let mut signals = SignalTable::new();
    let mut own = probe(10.0, 10.0);
    own.draws = Some(1);
    let mut high = probe(0.0, 0.0);
    high.draws = Some(3);
    let root =
        Widget::new(own, Vec::new(), vec![probe(0.0, 0.0), high], Style::default());
    let mut ui = UI::new(root, room(100.0, 100.0), &mut signals);
    let drawn = ui.generate_render_info(Point { x: 0, y: 0 }, None, &mut signals);
    let at = rect(0, 0, 10, 10);
    let image = |id: u64| MultiRenderable::Image {
        texture: TextureRef { id },
        renderables: vec![mark(&at)],
    };
    assert_eq!(
        drawn,
        Ok(MultiRenderable::Layered(vec![
            image(3),
            MultiRenderable::Adjacent(vec![image(1)]),
        ]))
    );
}
