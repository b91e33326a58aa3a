use std::cell::RefCell;
use std::collections::HashMap;
use std::rc::Rc;

use crossbeam_channel::Sender;
use vdom::{
    panel, reuse, text, ComponentHost, ComponentOutput, Context, ContextError, Dom, Element, Envelope,
    MountedId, Primitive, PrimitiveId, Reuse,
};

/// A surface that remembers what is mounted where and logs every call.
#[derive(Default)]
struct LogDom {
    counter: u64,
    roots: Vec<PrimitiveId>,
    nodes: HashMap<u64, (Primitive, Vec<PrimitiveId>)>,
    log: Vec<String>,
}

fn show(p: &Primitive) -> String {
    match p {
        Primitive::Panel => "panel".to_string(),
        Primitive::Text(s) => format!("text {}", s),
    }
}

impl Dom for LogDom {
    fn start(&mut self) {
        self.log.push("start".to_string());
    }
    fn commit(&mut self) {
        self.log.push("commit".to_string());
    }
    fn mount_as_child(&mut self, primitive: Primitive, parent: Option<PrimitiveId>) -> PrimitiveId {
        let id = PrimitiveId(self.counter);
        self.counter += 1;
        self.log.push(format!("mount {} under {:?}", show(&primitive), parent.map(|p| p.0)));
        self.nodes.insert(id.0, (primitive, Vec::new()));
        match parent {
            Some(p) => self.nodes.get_mut(&p.0).unwrap().1.push(id),
            None => self.roots.push(id),
        }
        id
    }
    fn diff_primitive(&mut self, old: PrimitiveId, new: Primitive) {
        self.log.push(format!("diff {} to {}", old.0, show(&new)));
        self.nodes.get_mut(&old.0).unwrap().0 = new;
    }
    fn remove(&mut self, id: PrimitiveId) {
        self.log.push(format!("remove {}", id.0));
        self.nodes.remove(&id.0);
        self.roots.retain(|r| *r != id);
        for (_, (_, ch)) in self.nodes.iter_mut() {
            ch.retain(|c| *c != id);
        }
    }
}

impl LogDom {
    /// Every primitive shown, depth first, roots in the order they were mounted.
    fn texts(&self) -> Vec<String> {
        let mut out = Vec::new();
        fn walk(d: &LogDom, id: PrimitiveId, out: &mut Vec<String>) {
            let (p, ch) = &d.nodes[&id.0];
            out.push(show(p));
            for c in ch {
                walk(d, *c, out);
            }
        }
        for r in &self.roots {
            walk(self, *r, &mut out);
        }
        out
    }
}

/// What the components of the tests render.
#[derive(Clone, Copy, PartialEq, Debug)]
enum Kind {
    /// One text: `name=count`.
    Plain,
    /// A panel with `count` texts.
    Nested,
    /// A plain child named `odd` or `even` after its count.
    Switch,
    /// A text and a memoized child.
    MemoParent,
    /// A text; renders again only when its props change.
    Memo,
    /// How many updates it got, in seconds.
    Seconds,
    /// `hi` while on, nothing while off; starts on.
    FullBlinker,
    /// `Yay!` while on, `Nay!` while off, with its period; starts off.
    SimpleBlinker(u64),
}

#[derive(Clone)]
struct Widget {
    kind: Kind,
    name: &'static str,
    probe: Rc<Probe>,
}

/// What the test sees of the components: the queue they were given, which of
/// them rendered, and which were cleaned up.
#[derive(Default)]
struct Probe {
    sender: RefCell<Option<Sender<Envelope<u64>>>>,
    renders: RefCell<Vec<String>>,
    flushed: RefCell<Vec<String>>,
    destroyed: RefCell<Vec<String>>,
}

impl Probe {
    fn send(&self, target: u64, amount: u64) {
        self.sender
            .borrow()
            .as_ref()
            .unwrap()
            .send(Envelope { target: MountedId(target), slot: 0, update: amount })
            .unwrap();
    }
}

struct WidgetState {
    template: Widget,
    count: u64,
}

fn widget(probe: &Rc<Probe>, kind: Kind, name: &'static str) -> Element<Widget> {
    Element::component(Widget { kind, name, probe: probe.clone() })
}

fn view(w: &Widget, count: u64) -> Vec<Element<Widget>> {
    w.probe.renders.borrow_mut().push(w.name.to_string());
    match w.kind {
        Kind::Plain => vec![text(format!("{}={}", w.name, count))],
        Kind::Nested => {
            let mut items = Vec::new();
            for i in 0..count {
                items.push(text(format!("{}#{}", w.name, i)));
            }
            vec![panel(items)]
        }
        Kind::Switch => {
            let name = if count % 2 == 1 { "odd" } else { "even" };
            vec![widget(&w.probe, Kind::Plain, name)]
        }
        Kind::MemoParent => vec![
            text(format!("{}={}", w.name, count)),
            widget(&w.probe, Kind::Memo, "m"),
        ],
        Kind::Memo => vec![text(format!("memo {}", w.name))],
        Kind::Seconds => vec![text(format!("{} seconds since creation!", count - 1))],
        Kind::FullBlinker => {
            let shown = if count % 2 == 1 { Some(text("hi".to_string())) } else { None };
            ComponentOutput::from_option(shown).into_vec()
        }
        Kind::SimpleBlinker(period) => {
            if count % 2 == 0 {
                vec![text(format!("Yay! - Period = {}", period))]
            } else {
                vec![text(format!("Nay! - Period = {}", period))]
            }
        }
    }
}

struct Host;

impl ComponentHost for Host {
    type Template = Widget;
    type State = WidgetState;
    type Update = u64;

    fn render_first(
        _id: MountedId,
        template: Widget,
        tx: &Sender<Envelope<u64>>,
    ) -> (WidgetState, Vec<Element<Widget>>) {
        *template.probe.sender.borrow_mut() = Some(tx.clone());
        let out = view(&template, 1);
        (WidgetState { template, count: 1 }, out)
    }
    fn render_update(
        _id: MountedId,
        state: &mut WidgetState,
        _tx: &Sender<Envelope<u64>>,
    ) -> Vec<Element<Widget>> {
        view(&state.template, state.count)
    }
    fn flush_effects(state: &mut WidgetState) {
        state.template.probe.flushed.borrow_mut().push(state.template.name.to_string());
    }
    fn same_function(state: &WidgetState, template: &Widget) -> bool {
        state.template.kind == template.kind && state.template.name == template.name
    }
    fn use_memoized(state: &WidgetState, template: &Widget) -> bool {
        state.template.kind == Kind::Memo && template.kind == Kind::Memo
    }
    fn destroy(state: WidgetState) {
        state.template.probe.destroyed.borrow_mut().push(state.template.name.to_string());
    }
    fn apply_update(state: &mut WidgetState, _slot: u64, update: u64) {
        state.count += update;
    }
}

fn process(ctx: &mut Context<Host>, dom: &mut LogDom) {
    ctx.process_messages(dom).unwrap();
}

#[test]
fn mount_root_mounts_primitives_in_order() {
    let mut dom = LogDom::default();
    let mut ctx: Context<Host> = Context::new();
    let root = ctx
        .mount_root(panel(vec![text("a".to_string()), text("b".to_string())]), &mut dom)
        .unwrap();
    assert_eq!(
        dom.log,
        vec![
            "mount panel under None".to_string(),
            "mount text a under Some(0)".to_string(),
            "mount text b under Some(0)".to_string(),
        ]
    );
    assert_eq!(dom.texts(), vec!["panel", "text a", "text b"]);
    assert!(ctx.is_mounted_root(root));
    assert!(ctx.is_mounted(root.0 .0));
}

#[test]
fn root_gets_the_first_id() {
    let mut dom = LogDom::default();
    let mut ctx: Context<Host> = Context::new();
    let r0 = ctx.mount_root(text("x".to_string()), &mut dom).unwrap();
    let r1 = ctx.mount_root(panel(vec![text("y".to_string())]), &mut dom).unwrap();
    assert_eq!(r0.0 .0, 0);
    assert_eq!(r1.0 .0, 1);
    // the text below the second panel took the id after it
    assert!(ctx.is_mounted(2));
    assert!(!ctx.is_mounted(3));
}

#[test]
fn unmount_root_removes_everything_below() {
    let mut dom = LogDom::default();
    let probe = Rc::new(Probe::default());
    let mut ctx: Context<Host> = Context::new();
    let keep = ctx.mount_root(text("keep".to_string()), &mut dom).unwrap();
    let root = ctx
        .mount_root(
            panel(vec![text("a".to_string()), widget(&probe, Kind::Plain, "c")]),
            &mut dom,
        )
        .unwrap();
    assert_eq!(dom.texts(), vec!["text keep", "panel", "text a", "text c=1"]);
    ctx.unmount_root(root, &mut dom);
    assert_eq!(dom.texts(), vec!["text keep"]);
    assert!(!ctx.is_mounted_root(root));
    assert!(ctx.is_mounted_root(keep));
    assert!(ctx.is_mounted(0));
    for id in 1..6 {
        assert!(!ctx.is_mounted(id));
    }
    assert_eq!(*probe.destroyed.borrow(), vec!["c".to_string()]);
    // children are removed from the dom before their parent
    let removes: Vec<&String> = dom.log.iter().filter(|l| l.starts_with("remove")).collect();
    assert_eq!(removes, vec!["remove 2", "remove 3", "remove 1"]);
}

#[test]
fn mount_after_unmount_takes_fresh_ids() {
    let mut dom = LogDom::default();
    let mut ctx: Context<Host> = Context::new();
    let a = ctx.mount_root(panel(vec![text("a".to_string())]), &mut dom).unwrap();
    ctx.unmount_root(a, &mut dom);
    let b = ctx.mount_root(text("b".to_string()), &mut dom).unwrap();
    assert_eq!(b.0 .0, 2);
    assert!(!ctx.is_mounted(0));
    assert!(!ctx.is_mounted(1));
    assert!(ctx.is_mounted_root(b));
    assert_eq!(dom.texts(), vec!["text b"]);
}

#[test]
fn component_renders_on_mount() {
    let mut dom = LogDom::default();
    let probe = Rc::new(Probe::default());
    let mut ctx: Context<Host> = Context::new();
    ctx.mount_root(widget(&probe, Kind::Nested, "n"), &mut dom).unwrap();
    assert_eq!(dom.texts(), vec!["panel", "text n#0"]);
    assert_eq!(*probe.renders.borrow(), vec!["n".to_string()]);
}

#[test]
fn update_rerenders_target_and_reconciles() {
    let mut dom = LogDom::default();
    let probe = Rc::new(Probe::default());
    let mut ctx: Context<Host> = Context::new();
    ctx.mount_root(panel(vec![widget(&probe, Kind::Nested, "n")]), &mut dom).unwrap();
    assert_eq!(dom.texts(), vec!["panel", "panel", "text n#0"]);
    // the component has id 1, its panel id 2 and the text id 3
    probe.send(1, 2);
    assert_eq!(ctx.msg_count(), 1);
    let targets = ctx.receive_messages().unwrap();
    assert_eq!(targets, vec![1]);
    assert_eq!(ctx.msg_count(), 0);
    dom.log.clear();
    ctx.rerender(&targets, &mut dom).unwrap();
    assert_eq!(
        dom.log,
        vec![
            "diff 1 to panel".to_string(),
            "diff 2 to text n#0".to_string(),
            "mount text n#1 under Some(1)".to_string(),
            "mount text n#2 under Some(1)".to_string(),
        ]
    );
    assert_eq!(dom.texts(), vec!["panel", "panel", "text n#0", "text n#1", "text n#2"]);
    // the kept nodes keep their ids, the new texts take fresh ones
    for id in 0..6 {
        assert!(ctx.is_mounted(id));
    }
    assert!(!ctx.is_mounted(6));
}

#[test]
fn update_to_unknown_component_is_refused() {
    let mut dom = LogDom::default();
    let probe = Rc::new(Probe::default());
    let mut ctx: Context<Host> = Context::new();
    ctx.mount_root(widget(&probe, Kind::Plain, "n"), &mut dom).unwrap();
    probe.send(7, 1);
    assert_eq!(ctx.receive_messages(), Err(ContextError::UnknownTarget(MountedId(7))));
    // an update addressed to a primitive is refused as well
    ctx.mount_root(text("t".to_string()), &mut dom).unwrap();
    probe.send(2, 1);
    assert_eq!(ctx.receive_messages(), Err(ContextError::UnknownTarget(MountedId(2))));
}

#[test]
fn updates_in_one_batch_are_all_received() {
    let mut dom = LogDom::default();
    let probe = Rc::new(Probe::default());
    let mut ctx: Context<Host> = Context::new();
    ctx.mount_root(
        panel(vec![widget(&probe, Kind::Plain, "a"), widget(&probe, Kind::Plain, "b")]),
        &mut dom,
    )
    .unwrap();
    probe.send(3, 1);
    probe.send(1, 1);
    probe.send(3, 5);
    let targets = ctx.receive_messages().unwrap();
    assert_eq!(targets, vec![3, 1, 3]);
    ctx.rerender(&targets, &mut dom).unwrap();
    assert_eq!(dom.texts(), vec!["panel", "text a=2", "text b=7"]);
    // each of them rendered once more
    assert_eq!(*probe.renders.borrow(), vec!["a", "b", "b", "a"]);
}

#[test]
fn rerender_roots_skip_targets_below_other_targets() {
    let mut dom = LogDom::default();
    let probe = Rc::new(Probe::default());
    let mut ctx: Context<Host> = Context::new();
    // 0: panel, 1: component a, 2: its text, 3: component b, 4: its text
    ctx.mount_root(
        panel(vec![widget(&probe, Kind::Plain, "a"), widget(&probe, Kind::Plain, "b")]),
        &mut dom,
    )
    .unwrap();
    assert_eq!(ctx.plan_roots(&vec![3, 1, 3]), vec![3, 1]);
    // the panel is above both components
    assert_eq!(ctx.plan_roots(&vec![3, 0, 1]), vec![0]);
    assert_eq!(ctx.plan_roots(&vec![2, 1]), vec![1]);
    assert_eq!(ctx.plan_roots(&vec![]), Vec::<u64>::new());
}

#[test]
fn nested_targets_render_once() {
    let mut dom = LogDom::default();
    let probe = Rc::new(Probe::default());
    let mut ctx: Context<Host> = Context::new();
    // 0: switch, 1: its child `odd`, 2: the text of `odd`
    ctx.mount_root(widget(&probe, Kind::Switch, "s"), &mut dom).unwrap();
    probe.send(1, 1);
    probe.send(0, 2);
    let targets = ctx.receive_messages().unwrap();
    probe.renders.borrow_mut().clear();
    ctx.rerender(&targets, &mut dom).unwrap();
    // the switch renders again; its child is diffed from there, not on its own
    assert_eq!(*probe.renders.borrow(), vec!["s", "odd"]);
    assert_eq!(dom.texts(), vec!["text odd=2"]);
}

#[test]
fn diff_replaces_component_of_another_function() {
    let mut dom = LogDom::default();
    let probe = Rc::new(Probe::default());
    let mut ctx: Context<Host> = Context::new();
    // 0: panel, 1: switch, 2: `odd`, 3: its text
    ctx.mount_root(panel(vec![widget(&probe, Kind::Switch, "s")]), &mut dom).unwrap();
    assert_eq!(dom.texts(), vec!["panel", "text odd=1"]);
    dom.log.clear();
    probe.send(1, 1);
    process(&mut ctx, &mut dom);
    // `odd` is unmounted and `even` mounted under a fresh id
    assert_eq!(*probe.destroyed.borrow(), vec!["odd".to_string()]);
    assert!(!ctx.is_mounted(2));
    assert!(!ctx.is_mounted(3));
    assert!(ctx.is_mounted(4));
    assert!(ctx.is_mounted(5));
    assert!(dom.texts().contains(&"text even=1".to_string()));
    assert!(!dom.texts().contains(&"text odd=1".to_string()));
    assert_eq!(dom.log.first().unwrap(), "start");
    assert_eq!(dom.log.last().unwrap(), "commit");
}

#[test]
fn memoized_child_skips_rendering() {
    let mut dom = LogDom::default();
    let probe = Rc::new(Probe::default());
    let mut ctx: Context<Host> = Context::new();
    // 0: parent, 1: its text, 2: the memoized child, 3: its text
    ctx.mount_root(widget(&probe, Kind::MemoParent, "p"), &mut dom).unwrap();
    assert_eq!(dom.texts(), vec!["text p=1", "text memo m"]);
    probe.send(0, 1);
    process(&mut ctx, &mut dom);
    assert_eq!(dom.texts(), vec!["text p=2", "text memo m"]);
    assert_eq!(*probe.renders.borrow(), vec!["p", "m", "p"]);
    assert!(ctx.is_mounted(2));
    // the memoized child still renders on its own updates
    probe.send(2, 1);
    process(&mut ctx, &mut dom);
    assert_eq!(*probe.renders.borrow(), vec!["p", "m", "p", "m"]);
}

#[test]
fn demo() {
    let mut dom = LogDom::default();
    let probe = Rc::new(Probe::default());
    let mut ctx: Context<Host> = Context::new();
    // 0: panel, 1: seconds, 3: full blinker, 5 and 7: simple blinkers
    ctx.mount_root(
        panel(vec![
            widget(&probe, Kind::Seconds, "counter"),
            widget(&probe, Kind::FullBlinker, "full"),
            widget(&probe, Kind::SimpleBlinker(3), "three"),
            widget(&probe, Kind::SimpleBlinker(5), "five"),
        ]),
        &mut dom,
    )
    .unwrap();
    assert_eq!(
        dom.texts(),
        vec![
            "panel",
            "text 0 seconds since creation!",
            "text hi",
            "text Nay! - Period = 3",
            "text Nay! - Period = 5",
        ]
    );
    // a second passes: the counter counts, the full blinker and the
    // three-second blinker flip
    probe.send(1, 1);
    probe.send(3, 1);
    probe.send(5, 1);
    assert_eq!(ctx.msg_count(), 3);
    process(&mut ctx, &mut dom);
    assert_eq!(ctx.msg_count(), 0);
    assert_eq!(
        dom.texts(),
        vec![
            "panel",
            "text 1 seconds since creation!",
            "text Yay! - Period = 3",
            "text Nay! - Period = 5",
        ]
    );
    // the full blinker turns on again: what it renders is mounted anew
    probe.send(3, 1);
    probe.send(1, 1);
    process(&mut ctx, &mut dom);
    let shown = dom.texts();
    assert!(shown.contains(&"text 2 seconds since creation!".to_string()));
    assert!(shown.contains(&"text hi".to_string()));
    assert_eq!(shown.len(), 5);
}

#[test]
fn rerender_leaves_other_components_alone() {
    let mut dom = LogDom::default();
    let probe = Rc::new(Probe::default());
    let mut ctx: Context<Host> = Context::new();
    // 0: panel, 1: component a, 2: its text, 3: component b, 4: its panel, 5: its text
    ctx.mount_root(
        panel(vec![widget(&probe, Kind::Plain, "a"), widget(&probe, Kind::Nested, "b")]),
        &mut dom,
    )
    .unwrap();
    dom.log.clear();
    probe.renders.borrow_mut().clear();
    probe.send(1, 4);
    process(&mut ctx, &mut dom);
    // only `a` rendered and only its text (the second primitive) changed on the dom
    assert_eq!(*probe.renders.borrow(), vec!["a"]);
    assert_eq!(
        dom.log,
        vec!["start".to_string(), "diff 1 to text a=5".to_string(), "commit".to_string()]
    );
    assert_eq!(dom.texts(), vec!["panel", "text a=5", "panel", "text b#0"]);
    for id in 0..6 {
        assert!(ctx.is_mounted(id));
    }
}

#[test]
fn process_messages_reports_an_unknown_target() {
    let mut dom = LogDom::default();
    let probe = Rc::new(Probe::default());
    let mut ctx: Context<Host> = Context::new();
    ctx.mount_root(widget(&probe, Kind::Plain, "a"), &mut dom).unwrap();
    dom.log.clear();
    probe.send(9, 1);
    assert_eq!(ctx.process_messages(&mut dom), Err(ContextError::UnknownTarget(MountedId(9))));
    assert_eq!(dom.log, vec!["start".to_string(), "commit".to_string()]);
    // the context keeps working
    probe.send(0, 1);
    process(&mut ctx, &mut dom);
    assert_eq!(dom.texts(), vec!["text a=2"]);
}

#[test]
fn process_messages_with_an_empty_queue_only_brackets_the_dom() {
    let mut dom = LogDom::default();
    let mut ctx: Context<Host> = Context::new();
    ctx.mount_root(text("still".to_string()), &mut dom).unwrap();
    dom.log.clear();
    process(&mut ctx, &mut dom);
    assert_eq!(dom.log, vec!["start".to_string(), "commit".to_string()]);
    assert_eq!(dom.texts(), vec!["text still"]);
}

#[test]
fn effects_run_after_every_render() {
    let mut dom = LogDom::default();
    let probe = Rc::new(Probe::default());
    let mut ctx: Context<Host> = Context::new();
    ctx.mount_root(
        panel(vec![widget(&probe, Kind::Switch, "s"), widget(&probe, Kind::MemoParent, "p")]),
        &mut dom,
    )
    .unwrap();
    // children render before their parent's effects run
    assert_eq!(*probe.renders.borrow(), vec!["s", "odd", "p", "m"]);
    assert_eq!(*probe.flushed.borrow(), vec!["odd", "s", "m", "p"]);
    probe.renders.borrow_mut().clear();
    probe.flushed.borrow_mut().clear();
    // 0: panel, 1: switch, 2: `odd`, 3: its text, 4: parent, 5: its text, 6: memo, 7: its text
    probe.send(1, 1);
    probe.send(4, 1);
    process(&mut ctx, &mut dom);
    let mut renders = probe.renders.borrow().clone();
    let mut flushed = probe.flushed.borrow().clone();
    renders.sort();
    flushed.sort();
    assert_eq!(renders, vec!["even", "p", "s"]);
    assert_eq!(flushed, renders);
}

#[test]
fn component_output_hangs_below_the_enclosing_panel() {
    let mut dom = LogDom::default();
    let probe = Rc::new(Probe::default());
    let mut ctx: Context<Host> = Context::new();
    ctx.mount_root(panel(vec![widget(&probe, Kind::Plain, "x")]), &mut dom).unwrap();
    assert_eq!(
        dom.log,
        vec!["mount panel under None".to_string(), "mount text x=1 under Some(0)".to_string()]
    );
    assert_eq!(dom.roots, vec![PrimitiveId(0)]);
    // panel, component, text
    for id in 0..3 {
        assert!(ctx.is_mounted(id));
    }
    assert!(!ctx.is_mounted(3));
}

#[test]
fn mount_counts_one_id_per_node() {
    let mut dom = LogDom::default();
    let mut ctx: Context<Host> = Context::new();
    let a = ctx
        .mount_root(panel(vec![text("a".to_string()), panel(vec![text("b".to_string())])]), &mut dom)
        .unwrap();
    let b = ctx.mount_root(text("c".to_string()), &mut dom).unwrap();
    assert_eq!(a.0 .0, 0);
    // four nodes above took ids 0 to 3
    assert_eq!(b.0 .0, 4);
    assert_eq!(
        dom.log,
        vec![
            "mount panel under None".to_string(),
            "mount text a under Some(0)".to_string(),
            "mount panel under Some(0)".to_string(),
            "mount text b under Some(2)".to_string(),
            "mount text c under None".to_string(),
        ]
    );
}

#[test]
fn rerender_keeps_primitives_and_diffs_them_in_place() {
    let mut dom = LogDom::default();
    let probe = Rc::new(Probe::default());
    let mut ctx: Context<Host> = Context::new();
    ctx.mount_root(widget(&probe, Kind::Plain, "k"), &mut dom).unwrap();
    assert_eq!(dom.texts(), vec!["text k=1"]);
    dom.log.clear();
    probe.send(0, 4);
    process(&mut ctx, &mut dom);
    assert_eq!(
        dom.log,
        vec!["start".to_string(), "diff 0 to text k=5".to_string(), "commit".to_string()]
    );
    assert_eq!(dom.texts(), vec!["text k=5"]);
    assert!(ctx.is_mounted(0));
    assert!(ctx.is_mounted(1));
    assert!(!ctx.is_mounted(2));
}

#[test]
fn reuse_follows_the_runtime_answers() {
    assert_eq!(reuse(false, false), Reuse::Replace);
    assert_eq!(reuse(false, true), Reuse::Replace);
    assert_eq!(reuse(true, true), Reuse::Keep);
    assert_eq!(reuse(true, false), Reuse::Rerender);
}

#[test]
fn unmount_removes_what_mount_mounted() {
    let mut dom = LogDom::default();
    let probe = Rc::new(Probe::default());
    let mut ctx: Context<Host> = Context::new();
    let root = ctx
        .mount_root(panel(vec![text("a".to_string()), widget(&probe, Kind::Plain, "w")]), &mut dom)
        .unwrap();
    let mounted: Vec<u64> = (0..dom.counter).collect();
    dom.log.clear();
    ctx.unmount_root(root, &mut dom);
    let mut removed: Vec<u64> = dom
        .log
        .iter()
        .map(|l| l.strip_prefix("remove ").unwrap().parse().unwrap())
        .collect();
    removed.sort();
    assert_eq!(removed, mounted);
    // one clean-up for the component, one removal per primitive
    assert_eq!(*probe.destroyed.borrow(), vec!["w".to_string()]);
    assert!(dom.texts().is_empty());
}
