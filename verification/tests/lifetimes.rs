use retain_bridge::handles::Runtime;

#[test]
fn retain_count_create_clone_drop() {
    let mut rt = Runtime::new();
    let obj = rt.create();
    let id = obj.target();
    assert_eq!(rt.count_of(id), Some(1));
    let obj2 = rt.clone_strong(&obj);
    assert_eq!(rt.count_of(id), Some(2));
    assert_eq!(obj2.target(), id);
    rt.drop_strong(obj2);
    assert_eq!(rt.count_of(id), Some(1));
    assert!(rt.is_live(id));
    rt.drop_strong(obj);
    assert_eq!(rt.count_of(id), Some(0));
    assert!(!rt.is_live(id));
}

#[test]
fn retain_via_identity() {
    let mut rt = Runtime::new();
    let obj = rt.create();
    let id = obj.target();
    let again = rt.retain(id);
    assert_eq!(rt.count_of(id), Some(2));
    rt.drop_strong(again);
    assert_eq!(rt.count_of(id), Some(1));
}

#[test]
fn autorelease_defers_release_to_scope_close() {
    let mut rt = Runtime::new();
    let obj = rt.create();
    let id = obj.target();
    let extra = rt.clone_strong(&obj);
    let token = rt.enter_scope();
    assert_eq!(rt.count_of(id), Some(2));
    rt.deposit(extra);
    // the deposit transfers the claim: no release happens at deposit time
    assert_eq!(rt.count_of(id), Some(2));
    rt.close_scope(token);
    assert_eq!(rt.count_of(id), Some(1));
    assert!(rt.is_live(id));
}

#[test]
fn scope_releases_one_per_deposit() {
    let mut rt = Runtime::new();
    let a = rt.create();
    let b = rt.create();
    let a_id = a.target();
    let b_id = b.target();
    // three deposits: a twice, b once
    let a2 = rt.clone_strong(&a);
    let a3 = rt.clone_strong(&a);
    let b2 = rt.clone_strong(&b);
    let token = rt.enter_scope();
    rt.deposit(a2);
    rt.deposit(b2);
    rt.deposit(a3);
    assert_eq!(rt.count_of(a_id), Some(3));
    assert_eq!(rt.count_of(b_id), Some(2));
    rt.close_scope(token);
    assert_eq!(rt.count_of(a_id), Some(1));
    assert_eq!(rt.count_of(b_id), Some(1));
    rt.drop_strong(a);
    rt.drop_strong(b);
}

#[test]
fn scopes_nest_and_close_in_lifo_order() {
    let mut rt = Runtime::new();
    let obj = rt.create();
    let id = obj.target();
    let c1 = rt.clone_strong(&obj);
    let c2 = rt.clone_strong(&obj);
    let outer = rt.enter_scope();
    rt.deposit(c1);
    let inner = rt.enter_scope();
    // goes into the innermost region
    rt.deposit(c2);
    assert_eq!(rt.open_scopes(), 2);
    assert_eq!(rt.count_of(id), Some(3));
    rt.close_scope(inner);
    assert_eq!(rt.count_of(id), Some(2));
    rt.close_scope(outer);
    assert_eq!(rt.count_of(id), Some(1));
    assert_eq!(rt.open_scopes(), 0);
}

#[test]
fn deposited_object_survives_losing_its_last_handle() {
    let mut rt = Runtime::new();
    let obj = rt.create();
    let id = obj.target();
    let token = rt.enter_scope();
    // hand the only claim to the scope: destruction is deferred to the close
    rt.deposit(obj);
    assert_eq!(rt.count_of(id), Some(1));
    assert!(rt.is_live(id));
    rt.close_scope(token);
    assert_eq!(rt.count_of(id), Some(0));
    assert!(!rt.is_live(id));
}

#[test]
fn weak_resolves_before_last_drop_and_not_after() {
    let mut rt = Runtime::new();
    let obj = rt.create();
    let id = obj.target();
    let weak = obj.downgrade();
    let resolved = weak.resolve(&mut rt);
    assert!(resolved.is_some());
    let strong = resolved.unwrap();
    assert_eq!(strong.target(), id);
    assert_eq!(rt.count_of(id), Some(2));
    rt.drop_strong(strong);
    rt.drop_strong(obj);
    assert_eq!(rt.count_of(id), Some(0));
    let gone = weak.resolve(&mut rt);
    assert!(gone.is_none());
    // the failed resolution touched nothing
    assert_eq!(rt.count_of(id), Some(0));
}

#[test]
fn weak_handles_never_extend_a_lifetime() {
    let mut rt = Runtime::new();
    let obj = rt.create();
    let id = obj.target();
    let w1 = obj.downgrade();
    let w2 = w1;
    assert_eq!(rt.count_of(id), Some(1));
    rt.drop_strong(obj);
    assert!(w1.resolve(&mut rt).is_none());
    assert!(w2.resolve(&mut rt).is_none());
}

#[test]
fn closing_an_empty_scope_releases_nothing() {
    let mut rt = Runtime::new();
    let obj = rt.create();
    let id = obj.target();
    let token = rt.enter_scope();
    rt.close_scope(token);
    assert_eq!(rt.count_of(id), Some(1));
    assert_eq!(rt.open_scopes(), 0);
}

#[test]
fn deferral_holds_at_depth_three() {
    let mut rt = Runtime::new();
    let obj = rt.create();
    let id = obj.target();
    let s1 = rt.enter_scope();
    let s2 = rt.enter_scope();
    let s3 = rt.enter_scope();
    let c = rt.clone_strong(&obj);
    rt.deposit(c);
    assert_eq!(rt.count_of(id), Some(2));
    rt.close_scope(s3);
    assert_eq!(rt.count_of(id), Some(1));
    rt.close_scope(s2);
    rt.close_scope(s1);
    assert_eq!(rt.count_of(id), Some(1));
}
