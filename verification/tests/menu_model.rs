use retain_bridge::adapter::Action;
use retain_bridge::adapter::CallbackAdapter;
use retain_bridge::handles::Runtime;
use retain_bridge::menu::ItemKind;
use retain_bridge::menu::MenuState;
use retain_bridge::menu::MenuSystem;
use retain_bridge::registry::CallbackRegistry;

fn baseline_three() -> (MenuSystem, usize, usize) {
    let mut sys = MenuSystem::new();
    let add_clickable_button = sys.add_clickable(Action::AddClickable);
    let add_label_button = sys.add_clickable(Action::AddLabel);
    sys.add_separator();
    sys.snapshot_baseline();
    (sys, add_clickable_button, add_label_button)
}

#[test]
fn registry_lifecycle_register_then_unregister() {
    let mut rt = Runtime::new();
    let mut reg = CallbackRegistry::new();
    let adapter = CallbackAdapter::new(&mut rt, Action::Announce);
    let adapter_id = adapter.obj();
    let item = rt.create();
    let item_id = item.target();
    assert_eq!(rt.count_of(adapter_id), Some(1));
    reg.register(&mut rt, item_id, adapter);
    assert!(reg.is_registered(item_id));
    assert_eq!(rt.count_of(adapter_id), Some(1));
    assert!(reg.unregister(&mut rt, item_id));
    // the adapter's count is back where it stood before its handle was made
    assert_eq!(rt.count_of(adapter_id), Some(0));
    assert!(!reg.is_registered(item_id));
    assert!(!reg.unregister(&mut rt, item_id));
    rt.drop_strong(item);
}

#[test]
fn registry_replacement_releases_the_old_adapter() {
    let mut rt = Runtime::new();
    let mut reg = CallbackRegistry::new();
    let first = CallbackAdapter::new(&mut rt, Action::Announce);
    let first_id = first.obj();
    let second = CallbackAdapter::new(&mut rt, Action::AddLabel);
    let second_id = second.obj();
    reg.register(&mut rt, 7, first);
    reg.register(&mut rt, 7, second);
    assert_eq!(rt.count_of(first_id), Some(0));
    assert_eq!(rt.count_of(second_id), Some(1));
    assert_eq!(reg.action_of(7), Some(Action::AddLabel));
}

#[test]
fn registry_action_lookup() {
    let mut rt = Runtime::new();
    let mut reg = CallbackRegistry::new();
    let a = CallbackAdapter::new(&mut rt, Action::Delete { abs: 5 });
    assert_eq!(a.invoke(), Action::Delete { abs: 5 });
    reg.register(&mut rt, 3, a);
    assert_eq!(reg.action_of(3), Some(Action::Delete { abs: 5 }));
    assert_eq!(reg.action_of(4), None);
}

#[test]
fn menu_scenario_add_add_delete() {
    let (mut sys, add_clickable_button, add_label_button) = baseline_three();
    assert_eq!(sys.baseline_count(), 3);
    assert_eq!(sys.tree_len(), 3);
    assert_eq!(sys.state(), MenuState::Baseline);
    assert_eq!(sys.submenu_len(), 0);
    assert!(!sys.info_is_enabled());

    sys.invoke(add_clickable_button);
    assert_eq!(sys.tree_len(), 4);
    assert_eq!(sys.state(), MenuState::Expanded(1));
    assert_eq!(sys.submenu_len(), 1);
    assert_eq!(sys.submenu_abs_at(0), 3);
    assert!(sys.info_is_enabled());
    let added = sys.item_id_at(3);
    assert_eq!(sys.item_kind_at(3), ItemKind::Clickable);
    assert!(sys.is_registered(added));

    sys.invoke(add_label_button);
    assert_eq!(sys.tree_len(), 5);
    assert_eq!(sys.state(), MenuState::Expanded(2));
    assert_eq!(sys.submenu_len(), 2);
    assert_eq!(sys.submenu_abs_at(0), 3);
    assert_eq!(sys.submenu_abs_at(1), 4);
    assert_eq!(sys.item_kind_at(4), ItemKind::Label);

    sys.delete_item(0);
    assert_eq!(sys.tree_len(), 4);
    assert_eq!(sys.state(), MenuState::Expanded(1));
    assert_eq!(sys.submenu_len(), 1);
    assert!(!sys.is_registered(added));
}

#[test]
fn stale_delete_below_baseline_is_a_noop() {
    let (mut sys, add_clickable_button, _add_label_button) = baseline_three();
    // the tree shrinks below the baseline through raw structural removal
    sys.remove_item_at(2);
    sys.remove_item_at(1);
    assert_eq!(sys.tree_len(), 1);
    assert_eq!(sys.state(), MenuState::Baseline);
    assert_eq!(sys.submenu_len(), 0);
    let registered_before = sys.is_registered(add_clickable_button);
    sys.delete_item(0);
    assert_eq!(sys.tree_len(), 1);
    assert_eq!(sys.state(), MenuState::Baseline);
    assert_eq!(sys.submenu_len(), 0);
    assert_eq!(sys.is_registered(add_clickable_button), registered_before);
}

#[test]
fn stale_delete_past_the_end_is_a_noop() {
    let (mut sys, add_clickable_button, _add_label_button) = baseline_three();
    sys.invoke(add_clickable_button);
    assert_eq!(sys.tree_len(), 4);
    sys.delete_item(1);
    assert_eq!(sys.tree_len(), 4);
    assert_eq!(sys.state(), MenuState::Expanded(1));
    assert_eq!(sys.submenu_len(), 1);
}

#[test]
fn recompute_twice_derives_the_same_view() {
    let (mut sys, add_clickable_button, _add_label_button) = baseline_three();
    sys.invoke(add_clickable_button);
    sys.recompute();
    let state_once = sys.state();
    let len_once = sys.submenu_len();
    let abs_once = sys.submenu_abs_at(0);
    let enabled_once = sys.info_is_enabled();
    sys.recompute();
    assert_eq!(sys.state(), state_once);
    assert_eq!(sys.submenu_len(), len_once);
    assert_eq!(sys.submenu_abs_at(0), abs_once);
    assert_eq!(sys.info_is_enabled(), enabled_once);
}

#[test]
fn submenu_delete_action_removes_its_target() {
    let (mut sys, add_clickable_button, add_label_button) = baseline_three();
    sys.invoke(add_clickable_button);
    sys.invoke(add_label_button);
    assert_eq!(sys.tree_len(), 5);
    // activate the first delete item, as clicking it in the submenu would
    let delete_item = sys.submenu_item_id_at(0);
    sys.invoke(delete_item);
    assert_eq!(sys.tree_len(), 4);
    assert_eq!(sys.state(), MenuState::Expanded(1));
    assert_eq!(sys.submenu_len(), 1);
    assert_eq!(sys.item_kind_at(3), ItemKind::Label);
}

#[test]
fn announce_and_unregistered_invocations_change_nothing() {
    let (mut sys, add_clickable_button, _add_label_button) = baseline_three();
    sys.invoke(add_clickable_button);
    let plain = sys.item_id_at(3);
    // the added clickable merely announces itself
    sys.invoke(plain);
    assert_eq!(sys.tree_len(), 4);
    assert_eq!(sys.state(), MenuState::Expanded(1));
    // an identity with no registry entry is a no-op
    sys.invoke(987_654);
    assert_eq!(sys.tree_len(), 4);
    assert_eq!(sys.submenu_len(), 1);
}

#[test]
fn deleting_every_added_item_returns_to_baseline() {
    let (mut sys, add_clickable_button, add_label_button) = baseline_three();
    sys.invoke(add_clickable_button);
    sys.invoke(add_label_button);
    sys.invoke(add_clickable_button);
    assert_eq!(sys.state(), MenuState::Expanded(3));
    let first_added = sys.item_id_at(3);
    let second_added = sys.item_id_at(4);
    let third_added = sys.item_id_at(5);
    sys.delete_item(2);
    sys.delete_item(1);
    sys.delete_item(0);
    assert_eq!(sys.tree_len(), 3);
    assert_eq!(sys.state(), MenuState::Baseline);
    assert_eq!(sys.submenu_len(), 0);
    assert!(!sys.info_is_enabled());
    assert!(!sys.is_registered(first_added));
    assert!(!sys.is_registered(second_added));
    assert!(!sys.is_registered(third_added));
    // the fixed buttons keep their adapters
    assert!(sys.is_registered(add_clickable_button));
    assert!(sys.is_registered(add_label_button));
}

#[test]
fn adapters_of_discarded_submenus_are_destroyed() {
    let (mut sys, add_clickable_button, _add_label_button) = baseline_three();
    sys.invoke(add_clickable_button);
    let delete_item = sys.submenu_item_id_at(0);
    assert!(sys.is_registered(delete_item));
    assert_eq!(sys.object_count(delete_item), Some(1));
    // any structural change rebuilds the submenu from scratch
    sys.invoke(add_clickable_button);
    assert!(!sys.is_registered(delete_item));
    assert_eq!(sys.object_count(delete_item), Some(0));
    assert_eq!(sys.submenu_len(), 2);
}

#[test]
fn fresh_system_starts_at_baseline() {
    let sys = MenuSystem::new();
    assert_eq!(sys.tree_len(), 0);
    assert_eq!(sys.baseline_count(), 0);
    assert_eq!(sys.state(), MenuState::Baseline);
    assert_eq!(sys.submenu_len(), 0);
    assert!(!sys.info_is_enabled());
}
