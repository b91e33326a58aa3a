use vdom::{
    panel, text, ComponentId, ComponentOutput, Components, EffectAction, Element, ElementInner,
    HookCursor, Primitive, StateSlot,
};

fn text_of(e: &Element<u32>) -> String {
    match &e.0 {
        ElementInner::Primitive(Primitive::Text(s), _) => s.clone(),
        ElementInner::Primitive(Primitive::Panel, _) => "panel".to_string(),
        ElementInner::Component(c) => format!("component {}", c),
    }
}

#[test]
fn components_allocate_hands_out_increasing_ids() {
    let mut store: Components<String> = Components::new();
    let a = store.allocate();
    let b = store.allocate();
    let c = store.allocate();
    assert_eq!(a, ComponentId(0));
    assert_eq!(b, ComponentId(1));
    assert_eq!(c, ComponentId(2));
}

#[test]
fn components_fill_get_take() {
    let mut store: Components<String> = Components::new();
    let a = store.allocate();
    let b = store.allocate();
    store.fill(a, "first".to_string());
    store.fill(b, "second".to_string());
    store.get(a).push_str("!");
    assert_eq!(store.get(a).as_str(), "first!");
    assert_eq!(store.take(b), "second");
    // filling again replaces what was stored
    store.fill(a, "again".to_string());
    assert_eq!(store.take(a), "again");
}

#[test]
fn components_with_puts_the_component_back() {
    let mut store: Components<String> = Components::new();
    let a = store.allocate();
    let b = store.allocate();
    store.fill(a, "a".to_string());
    store.fill(b, "b".to_string());
    store.with(a, |mut c, mut rest| {
        // the component is out of the store while `f` runs
        c.push_str(rest.get(b).as_str());
        rest.get(b).push_str("+");
        (c, rest)
    });
    assert_eq!(store.get(a).as_str(), "ab");
    assert_eq!(store.get(b).as_str(), "b+");
    let c = store.allocate();
    assert_eq!(c, ComponentId(2));
}

#[test]
fn hooks_first_render_creates_slots_in_order() {
    let mut h = HookCursor::render_first();
    assert!(h.first());
    assert_eq!(h.use_state(), StateSlot { fresh: true, index: 0 });
    assert_eq!(h.use_effect(Some(false)), EffectAction::Push);
    assert_eq!(h.use_state(), StateSlot { fresh: true, index: 1 });
    assert_eq!(h.use_effect(None), EffectAction::Push);
}

#[test]
fn hooks_later_render_reads_slots_back() {
    let mut h = HookCursor::update();
    assert!(!h.first());
    assert_eq!(h.use_state(), StateSlot { fresh: false, index: 0 });
    // equal dependencies keep the stored effect
    assert_eq!(h.use_effect(Some(true)), EffectAction::Keep);
    // the effect call moved the state cursor on by one
    assert_eq!(h.use_state(), StateSlot { fresh: false, index: 2 });
    // changed or missing dependencies replace the effect in the first effect slot
    assert_eq!(h.use_effect(Some(false)), EffectAction::Replace(0));
    assert_eq!(h.use_effect(None), EffectAction::Replace(0));
    assert_eq!(h.use_state(), StateSlot { fresh: false, index: 5 });
}

#[test]
fn panel_and_text_build_primitives() {
    let e: Element<u32> = panel(vec![text("a".to_string()), Element::component(7)]);
    assert_eq!(e.1, None);
    match &e.0 {
        ElementInner::Primitive(Primitive::Panel, ch) => {
            assert_eq!(ch.len(), 2);
            assert_eq!(text_of(&ch[0]), "a");
            assert_eq!(text_of(&ch[1]), "component 7");
        }
        _ => panic!("not a panel"),
    }
    let t: Element<u32> = text("hello".to_string());
    match &t.0 {
        ElementInner::Primitive(Primitive::Text(s), ch) => {
            assert_eq!(s, "hello");
            assert!(ch.is_empty());
        }
        _ => panic!("not a text"),
    }
}

#[test]
fn with_key_keeps_the_element() {
    let e: Element<u32> = text("k".to_string()).with_key(9);
    assert_eq!(e.1, Some(9));
    assert_eq!(text_of(&e), "k");
    let c: Element<u32> = Element::component(3).with_key(4);
    assert_eq!(c.1, Some(4));
    assert_eq!(text_of(&c), "component 3");
}

#[test]
fn component_output_from_each_form() {
    let none: ComponentOutput<u32> = ComponentOutput::from_option(None);
    assert!(matches!(none, ComponentOutput::Nothing));
    assert_eq!(none.into_vec().len(), 0);
    let some: ComponentOutput<u32> = ComponentOutput::from_option(Some(text("x".to_string())));
    let v = some.into_vec();
    assert_eq!(v.len(), 1);
    assert_eq!(text_of(&v[0]), "x");
    let single = ComponentOutput::from_element(Element::component(1u32));
    assert_eq!(single.into_vec().iter().map(text_of).collect::<Vec<_>>(), vec!["component 1"]);
    let many: ComponentOutput<u32> =
        ComponentOutput::from_vec(vec![text("p".to_string()), text("q".to_string())]);
    assert_eq!(many.into_vec().iter().map(text_of).collect::<Vec<_>>(), vec!["p", "q"]);
}

#[test]
fn component_output_iterates_in_order() {
    let many: ComponentOutput<u32> = ComponentOutput::from_vec(vec![
        text("1".to_string()),
        text("2".to_string()),
        text("3".to_string()),
    ]);
    let mut it = many.into_iter();
    let mut seen = Vec::new();
    while let Some(e) = it.next() {
        seen.push(text_of(&e));
    }
    assert_eq!(seen, vec!["1", "2", "3"]);
    assert!(it.next().is_none());

    let mut single = ComponentOutput::from_element(text::<u32>("s".to_string())).into_iter();
    assert_eq!(text_of(&single.next().unwrap()), "s");
    assert!(single.next().is_none());

    let mut nothing = ComponentOutput::<u32>::Nothing.into_iter();
    assert!(nothing.next().is_none());
}

#[test]
fn hook_cursor_state_slot_follows_use_state() {
    let mut c = HookCursor::render_first();
    assert_eq!(c.state_slot(), 0);
    c.use_state();
    c.use_state();
    assert_eq!(c.state_slot(), 2);
    let mut u = HookCursor::update();
    u.use_state();
    u.use_effect(Some(true));
    assert_eq!(u.state_slot(), 2);
    assert_eq!(u.effect_slot(), 0);
}
