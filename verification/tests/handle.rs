use dagr_core::binding::NodeBinding;
use dagr_core::handle::{fnv1a_digest, Handle, NodeId};

fn registered<T>(name: &str) -> Handle<T> {
    NodeBinding::consuming_nothing(name).finish::<T>()
}

fn passthrough<T>(handle: Handle<T>) -> Handle<T> {
    let taken = handle;
    let reused = handle;
    let _ = reused;
    taken
}

#[test]
fn handles_are_freely_copyable() {
    let handle: Handle<u32> = registered::<u32>("counts");

    let copy = handle;
    let out = passthrough(handle);
    let still_usable = handle;

    assert_eq!(copy.id(), still_usable.id());
    assert_eq!(out.id(), handle.id());
}

struct A;
struct B;

#[test]
fn a_handle_carries_the_nodes_typed_output() {
    let a: Handle<A> = registered::<A>("makes-a");
    let b: Handle<B> = registered::<B>("makes-b");

    assert_ne!(a.id(), b.id());
    assert_eq!(a.id(), NodeId::from_name("makes-a"));
    assert_eq!(b.id(), NodeId::from_name("makes-b"));
}

#[test]
fn identity_comes_from_name_not_registration_order() {
    let x1: Handle<u32> = registered::<u32>("x");
    let y1: Handle<u32> = registered::<u32>("y");
    let y2: Handle<u32> = registered::<u32>("y");
    let x2: Handle<u32> = registered::<u32>("x");

    assert_eq!(x1.id(), x2.id());
    assert_eq!(y1.id(), y2.id());
}

#[test]
fn renaming_a_node_changes_its_identity() {
    let under_x: Handle<u32> = registered::<u32>("x");
    let under_y: Handle<u32> = registered::<u32>("y");

    assert_ne!(under_x.id(), under_y.id());
    assert_eq!(under_x.id(), NodeId::from_name("x"));
    assert_eq!(under_y.id(), NodeId::from_name("y"));
}

#[test]
fn identity_is_a_pure_function_of_the_name() {
    assert_eq!(NodeId::from_name("stage-one"), NodeId::from_name("stage-one"));
    assert_ne!(NodeId::from_name("stage-one"), NodeId::from_name("stage-two"));
}

/// The digest of known inputs, worked out by hand or published for the function.
#[test]
fn digest_has_known_values() {
    assert_eq!(fnv1a_digest(b""), 0xcbf2_9ce4_8422_2325);
    assert_eq!(fnv1a_digest(b"a"), 0xaf63_dc4c_8601_ec8c);
    assert_eq!(fnv1a_digest(b"foobar"), 0x8594_4171_f739_67e8);
}
