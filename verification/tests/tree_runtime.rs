//! Assembly, identity lookup, event bubbling, visiting and rendering.

use ramaui::assembly::build_tree;
use ramaui::assembly::AssemblyError;
use ramaui::assembly::ParseEvent;
use ramaui::events::Event;
use ramaui::tree_builder::Widget;
use ramaui::ui_elements::UIKind;
use ramaui::ui_elements::UINode;
use ramaui::ui_elements::UITree;
use ramaui::visitor::VisitStep;
use ramaui::visitor::Visitor;
use ramaui::xaml_reader::read_xaml;

fn start(name: &str, attrs: &[(&str, &str)]) -> ParseEvent {
    ParseEvent::StartElement {
        name: name.to_string(),
        attributes: attrs.iter().map(|(k, v)| (k.to_string(), v.to_string())).collect(),
    }
}

fn end(name: &str) -> ParseEvent {
    ParseEvent::EndElement { name: name.to_string() }
}

fn text(s: &str) -> ParseEvent {
    ParseEvent::Characters(s.to_string())
}

fn label_button_window() -> Vec<ParseEvent> {
    vec![
        start("Window", &[]),
        start("Label", &[("Text", "Hi")]),
        end("Label"),
        start("Button", &[("Content", "Go"), ("Click", "OnGo")]),
        end("Button"),
        end("Window"),
    ]
}

#[test]
fn assembly_assigns_sequential_identities() {
    let tree = build_tree(&label_button_window()).expect("tree");
    assert_eq!(tree.nodes.len(), 3);
    assert_eq!(tree.nodes[0].get_id(), "ID_0");
    assert_eq!(tree.nodes[1].get_id(), "ID_1");
    assert_eq!(tree.nodes[2].get_id(), "ID_2");
    assert_eq!(tree.root, Some(0));
    assert_eq!(tree.nodes[0].kind, UIKind::Window);
    assert_eq!(tree.nodes[1].kind, UIKind::Label);
    assert_eq!(tree.nodes[2].kind, UIKind::Button);
    assert_eq!(tree.nodes[0].children, vec![1, 2]);
    assert_eq!(tree.nodes[1].parent, Some(0));
    assert_eq!(tree.nodes[2].parent, Some(0));
    assert_eq!(tree.nodes[0].parent, None);
}

#[test]
fn assembly_namespaces_attributes_by_element_name() {
    let tree = build_tree(&label_button_window()).expect("tree");
    let button = &tree.nodes[2];
    assert_eq!(button.attributes.get("Button.Click").map(|s| s.as_str()), Some("OnGo"));
    assert!(button.attributes.get("Click").is_none());
    assert_eq!(button.get_attribute("Click").map(|s| s.as_str()), Some("OnGo"));
    assert_eq!(button.get_text(), "Go");
}

#[test]
fn empty_document_is_structural_error() {
    let r = build_tree(&Vec::new());
    assert!(matches!(r, Err(AssemblyError::Malformed)));
}

#[test]
fn unclosed_elements_are_structural_error() {
    let events = vec![start("Window", &[]), start("Label", &[])];
    assert!(build_tree(&events).is_err());
}

#[test]
fn input_before_any_element_is_tolerated_but_yields_no_tree() {
    let events = vec![text("stray"), end("stray")];
    assert!(build_tree(&events).is_err());
}

#[test]
fn window_dimensions_default_to_one_hundred() {
    let tree = build_tree(&vec![start("Window", &[]), end("Window")]).unwrap();
    assert_eq!(tree.nodes[0].get_width(), Some(100));
    assert_eq!(tree.nodes[0].get_height(), Some(100));
    let tree2 = build_tree(
        &vec![start("Window", &[("Width", "640"), ("Height", "abc")]), end("Window")],
    )
    .unwrap();
    assert_eq!(tree2.nodes[0].get_width(), Some(640));
    assert_eq!(tree2.nodes[0].get_height(), Some(100));
    assert_eq!(tree2.nodes[0].get_title(), "");
}

#[test]
fn only_windows_get_default_dimensions() {
    let mut tree = build_tree(&vec![start("Label", &[]), end("Label")]).unwrap();
    assert_eq!(tree.nodes[0].get_width(), None);
    tree.nodes[0].set_width(-12);
    assert_eq!(tree.nodes[0].get_width(), Some(-12));
    tree.nodes[0].set_height(360);
    assert_eq!(tree.nodes[0].get_height(), Some(360));
}

#[test]
fn inline_text_folds_into_text_bearing_kinds() {
    let events = vec![
        start("Window", &[]),
        start("Label", &[]),
        text("Hello"),
        end("Label"),
        start("Button", &[]),
        text("Press"),
        end("Button"),
        start("Grid", &[]),
        text("ignored"),
        end("Grid"),
        end("Window"),
    ];
    let tree = build_tree(&events).unwrap();
    assert_eq!(tree.nodes[1].get_content(), "Hello");
    assert_eq!(tree.nodes[2].get_text(), "Press");
    assert!(tree.nodes[3].get_attribute("Text").is_none());
}

#[test]
fn find_by_id_over_the_whole_tree() {
    let tree = build_tree(&label_button_window()).unwrap();
    assert_eq!(tree.find_by_id("ID_0"), Some(0));
    assert_eq!(tree.find_by_id("ID_2"), Some(2));
    assert_eq!(tree.find_by_id("ID_9"), None);
    assert_eq!(UITree::new().find_by_id("ID_0"), None);
}

#[test]
fn click_dispatches_once_end_to_end() {
    let tree = build_tree(&label_button_window()).expect("tree");
    let button = tree.find_by_id("ID_2").expect("button");
    let methods = tree.handle_event(button, &Event::new("Button.Click"));
    let on_go_calls = methods.iter().filter(|m| m.as_str() == "OnGo").count();
    assert_eq!(on_go_calls, 1);
    assert_eq!(methods.len(), 1);
}

#[test]
fn bubbling_fires_every_matching_ancestor_child_to_root() {
    let events = vec![
        start("Window", &[]),
        start("StackPanel", &[]),
        start("Grid", &[]),
        start("Button", &[]),
        end("Button"),
        end("Grid"),
        end("StackPanel"),
        end("Window"),
    ];
    let mut tree = build_tree(&events).unwrap();
    // the root and the first-level child map the event; the two below do not
    tree.nodes[0].attributes.set("app.Ping", "RootHandler");
    tree.nodes[1].attributes.set("app.Ping", "MidHandler");
    let methods = tree.handle_event(3, &Event::new("app.Ping"));
    assert_eq!(methods, vec!["MidHandler".to_string(), "RootHandler".to_string()]);
}

#[test]
fn event_carries_its_name() {
    let ev = Event::new("Button.Click");
    assert_eq!(ev.get_name().as_str(), "Button.Click");
}

#[test]
fn unknown_element_passes_through() {
    let events = vec![
        start("Window", &[]),
        start("Frobnicator", &[("Click", "OnFrob")]),
        start("Label", &[("Text", "x")]),
        end("Label"),
        end("Frobnicator"),
        end("Window"),
    ];
    let tree = build_tree(&events).unwrap();
    assert_eq!(tree.nodes[1].kind, UIKind::Unknown);
    assert_eq!(tree.nodes[1].get_ui_kind_name(), "UnknownElementType");
    assert_eq!(tree.nodes[1].children, vec![2]);
    let trace = tree.visit(0);
    assert_eq!(
        trace,
        vec![
            VisitStep::Start(0),
            VisitStep::Start(1),
            VisitStep::Start(2),
            VisitStep::End(2),
            VisitStep::End(1),
            VisitStep::End(0),
        ],
    );
    let methods = tree.handle_event(1, &Event::new("Frobnicator.Click"));
    assert_eq!(methods, vec!["OnFrob".to_string()]);
}

struct CountingVisitor {
    starts: usize,
    ends: usize,
}

impl Visitor for CountingVisitor {
    fn start_visit_button(&mut self, _b: &UINode) {
        self.starts += 1;
    }
    fn start_visit_window(&mut self, _w: &UINode) {
        self.starts += 1;
    }
    fn start_visit_label(&mut self, _l: &UINode) {
        self.starts += 1;
    }
    fn start_visit_text_block(&mut self, _t: &UINode) {
        self.starts += 1;
    }
    fn start_visit_grid(&mut self, _g: &UINode) {
        self.starts += 1;
    }
    fn start_visit_grid_cols(&mut self, _g: &UINode) {
        self.starts += 1;
    }
    fn start_visit_grid_row(&mut self, _g: &UINode) {
        self.starts += 1;
    }
    fn start_visit_col_def(&mut self, _g: &UINode) {
        self.starts += 1;
    }
    fn start_visit_row_def(&mut self, _g: &UINode) {
        self.starts += 1;
    }
    fn start_visit_content_page(&mut self, _g: &UINode) {
        self.starts += 1;
    }
    fn start_visit_unknown(&mut self, _g: &UINode) {
        self.starts += 1;
    }
    fn start_visit_stack(&mut self, _g: &UINode) {
        self.starts += 1;
    }
    fn visit_button(&mut self, _b: &UINode) {
        self.ends += 1;
    }
    fn visit_window(&mut self, _w: &UINode) {
        self.ends += 1;
    }
    fn visit_label(&mut self, _l: &UINode) {
        self.ends += 1;
    }
    fn visit_text_block(&mut self, _t: &UINode) {
        self.ends += 1;
    }
    fn visit_grid(&mut self, _g: &UINode) {
        self.ends += 1;
    }
    fn visit_grid_cols(&mut self, _g: &UINode) {
        self.ends += 1;
    }
    fn visit_grid_row(&mut self, _g: &UINode) {
        self.ends += 1;
    }
    fn visit_col_def(&mut self, _g: &UINode) {
        self.ends += 1;
    }
    fn visit_row_def(&mut self, _g: &UINode) {
        self.ends += 1;
    }
    fn visit_content_page(&mut self, _g: &UINode) {
        self.ends += 1;
    }
    fn visit_unknown(&mut self, _g: &UINode) {
        self.ends += 1;
    }
    fn visit_stack(&mut self, _g: &UINode) {
        self.ends += 1;
    }
}

fn grid_document() -> Vec<ParseEvent> {
    vec![
        start("Window", &[]),
        start("Grid", &[]),
        start("Grid.ColumnDefinitions", &[]),
        start("ColumnDefinition", &[("Width", "1*")]),
        end("ColumnDefinition"),
        end("Grid.ColumnDefinitions"),
        start("Grid.RowDefinitions", &[]),
        start("RowDefinition", &[("Height", "2*")]),
        end("RowDefinition"),
        end("Grid.RowDefinitions"),
        start("TextBlock", &[("Text", "cell")]),
        end("TextBlock"),
        end("Grid"),
        start("ContentPage", &[("Title", "page")]),
        end("ContentPage"),
        end("Window"),
    ]
}

#[test]
fn visitor_scope_balance() {
    let tree = build_tree(&grid_document()).unwrap();
    let mut v = CountingVisitor { starts: 0, ends: 0 };
    tree.accept(0, &mut v);
    assert_eq!(v.starts, tree.nodes.len());
    assert_eq!(v.ends, tree.nodes.len());
    let trace = tree.visit(0);
    assert_eq!(trace.len(), 2 * tree.nodes.len());
    let n_starts = trace.iter().filter(|s| matches!(s, VisitStep::Start(_))).count();
    let n_ends = trace.iter().filter(|s| matches!(s, VisitStep::End(_))).count();
    assert_eq!(n_starts, n_ends);
}

#[test]
fn render_leaves_exactly_one_root_artifact() {
    let tree = build_tree(&label_button_window()).unwrap();
    let b = tree.render();
    assert!(b.scopes.is_empty());
    let w: Widget = b.built.expect("root artifact");
    assert_eq!(w.kind, UIKind::Window);
    assert_eq!(w.id, "ID_0");
    assert_eq!(w.children.len(), 2);
    assert_eq!(w.children[0].kind, UIKind::Label);
    assert_eq!(w.children[1].kind, UIKind::Button);
    assert!(w.children[0].children.is_empty());
    assert!(w.children[1].children.is_empty());
}

#[test]
fn render_of_empty_tree_builds_nothing() {
    let b = UITree::new().render();
    assert!(b.scopes.is_empty());
    assert!(b.built.is_none());
}

#[test]
fn dump_indents_by_depth() {
    let events = vec![
        start("Window", &[("Title", "T"), ("WindowStyle", "S"), ("Width", "10"), ("Height", "10")]),
        start("Label", &[("Text", "L")]),
        end("Label"),
        end("Window"),
    ];
    let tree = build_tree(&events).unwrap();
    let printed = tree.dump(0, 0);
    assert_eq!(printed, "DUMP: Window  -  title:T, style: S\n   DUMP: Label - content:L\n");
}

#[test]
fn it_works() {
    let doc = b"<Window Title=\"test\"><Label>Hello</Label></Window>";
    let tree = read_xaml(doc).expect("no tree returned from xaml parse?");
    let root = tree.root.expect("root");
    assert!(tree.nodes[root].get_ui_kind_name() == "Window");
    let printed = tree.dump(0, 0);
    assert!(printed.contains("Label"));
    assert!(printed.contains("Hello"));
}

#[test]
fn markup_click_scenario() {
    let doc = br#"<Window><Label Text="Hi"/><Button Content="Go" Click="OnGo"/></Window>"#;
    let tree = read_xaml(doc).unwrap();
    let button = tree.find_by_id("ID_2").expect("button node");
    assert_eq!(tree.nodes[button].kind, UIKind::Button);
    let methods = tree.handle_event(button, &Event::new("Button.Click"));
    assert_eq!(methods, vec!["OnGo".to_string()]);
}

#[test]
fn markup_parse_error_stops_tokenization() {
    // the mismatched closing tag ends tokenization with two elements still
    // open, so the stream never reduces to a single root element
    let doc = b"<Window><Label></Wrong></Window>";
    let r = read_xaml(doc);
    assert!(matches!(r, Err(AssemblyError::Malformed)));
}
