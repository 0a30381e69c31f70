use window_layout::perc;
use window_layout::Extent;
use window_layout::ScaleInto;
use window_layout::Window;
use window_layout::WindowError;

fn ext(x: u32, y: u32) -> Extent {
    Extent { x, y }
}

#[test]
fn sub_windows() {
    let mut w = Window::root(ext(1920, 1080));
    let root = w.root_id();
    assert_eq!(w.size(root), ext(1920, 1080));
    assert_eq!(w.corners(root), (ext(0, 0), ext(1920, 1080)));
    assert_eq!(w.corners_offset(root), (ext(0, 0), ext(0, 0)));

    let dialog = w
        .top_left(root, "dialog", perc(50).unwrap(), perc(25).unwrap())
        .unwrap();
    assert_eq!(w.size(dialog), ext(960, 540));
    assert_eq!(w.corners(dialog), (ext(480, 270), ext(1440, 810)));
    assert_eq!(w.corners_offset(dialog), (ext(480, 270), ext(480, 270)));

    let button = w
        .top_left(dialog, "button", perc(50).unwrap(), perc(25).unwrap())
        .unwrap();
    assert_eq!(w.size(button), ext(480, 270));
    assert_eq!(w.corners(button), (ext(720, 405), ext(1200, 675)));
    assert_eq!(w.corners_offset(button), (ext(720, 405), ext(720, 405)));

    let text = w
        .bottom_right(button, "text", perc(50).unwrap(), ext(0, 0))
        .unwrap();
    assert_eq!(w.size(text), ext(240, 135));
    assert_eq!(w.corners(text), (ext(960, 540), ext(1200, 675)));
    assert_eq!(w.corners_offset(text), (ext(960, 540), ext(720, 405)));

    // a half-size child pushed half the extent past the corner extends
    // past `text`'s top-left corner and is rejected
    let r = w.bottom_right(text, "", perc(50).unwrap(), perc(50).unwrap());
    assert_eq!(r, Err(WindowError::OutOfBounds));
}

#[test]
fn percentage_bounds() {
    assert!(perc(0).is_ok());
    assert!(perc(37).is_ok());
    assert!(perc(100).is_ok());
    assert_eq!(perc(101).unwrap_err(), WindowError::InvalidArgument);
    assert_eq!(perc(u32::MAX).unwrap_err(), WindowError::InvalidArgument);
}

#[test]
fn percentage_resolution() {
    let e = ext(1920, 1080);
    assert_eq!(perc(50).unwrap().scale_into(e), ext(960, 540));
    assert_eq!(perc(25).unwrap().scale_into(e), ext(480, 270));
    // truncating division on an odd split
    assert_eq!(perc(33).unwrap().scale_into(ext(10, 100)), ext(3, 33));
    // the full percentage is the identity
    assert_eq!(perc(100).unwrap().scale_into(e), e);
    // the zero percentage collapses to the zero extent
    assert_eq!(perc(0).unwrap().scale_into(e), ext(0, 0));
}

#[test]
fn percentage_pair_resolution() {
    let e = ext(1000, 500);
    let pair = (perc(10).unwrap(), perc(40).unwrap());
    assert_eq!(pair.scale_into(e), ext(100, 200));
}

#[test]
fn extent_resolves_to_itself() {
    let e = ext(640, 480);
    assert_eq!(ext(12, 34).scale_into(e), ext(12, 34));
}

#[test]
fn center_splits_leftover_space() {
    let mut w = Window::root(ext(1000, 500));
    let root = w.root_id();
    let c = w.center(root, "c", perc(50).unwrap()).unwrap();
    assert_eq!(w.size(c), ext(500, 250));
    assert_eq!(w.corners(c), (ext(250, 125), ext(750, 375)));
}

#[test]
fn center_rejects_full_size() {
    let mut w = Window::root(ext(1000, 500));
    let root = w.root_id();
    let r = w.center(root, "c", perc(100).unwrap());
    assert_eq!(r, Err(WindowError::OutOfBounds));
}

#[test]
fn top_left_rejects_boundary_touch() {
    let mut w = Window::root(ext(100, 100));
    let root = w.root_id();
    // offset 10 + size 90 touches the far edge exactly: rejected
    let r = w.top_left(root, "a", ext(90, 50), ext(10, 10));
    assert_eq!(r, Err(WindowError::OutOfBounds));
    // one short of the edge is accepted
    let a = w.top_left(root, "a", ext(89, 50), ext(10, 10)).unwrap();
    assert_eq!(w.corners(a), (ext(10, 10), ext(99, 60)));
}

#[test]
fn bottom_right_touches_far_edge_with_zero_offset() {
    let mut w = Window::root(ext(100, 100));
    let root = w.root_id();
    let a = w.bottom_right(root, "a", ext(40, 30), ext(0, 0)).unwrap();
    assert_eq!(w.corners(a), (ext(60, 70), ext(100, 100)));
}

#[test]
fn lookup_by_name() {
    let mut w = Window::root(ext(800, 600));
    let root = w.root_id();
    let a = w.top_left(root, "a", perc(10).unwrap(), perc(10).unwrap()).unwrap();
    assert_eq!(w.get_opt(root, "a"), Some(a));
    assert_eq!(w.get_opt(root, "b"), None);
    assert_eq!(w.get(root, "a"), a);
}

#[test]
fn remove_then_lookup_is_empty() {
    let mut w = Window::root(ext(800, 600));
    let root = w.root_id();
    let a = w.top_left(root, "a", perc(10).unwrap(), perc(10).unwrap()).unwrap();
    assert_eq!(w.get_opt(root, "a"), Some(a));
    w.remove(a);
    assert_eq!(w.get_opt(root, "a"), None);
    // inserting under the freed name succeeds, independent of the
    // removed instance
    let b = w.center(root, "a", perc(25).unwrap()).unwrap();
    assert_ne!(a, b);
    assert_eq!(w.size(b), ext(200, 150));
    assert_eq!(w.get_opt(root, "a"), Some(b));
}

#[test]
fn duplicate_name_replaces_previous_child() {
    let mut w = Window::root(ext(800, 600));
    let root = w.root_id();
    let _first = w.top_left(root, "a", perc(10).unwrap(), perc(10).unwrap()).unwrap();
    let second = w.top_left(root, "a", perc(20).unwrap(), perc(20).unwrap()).unwrap();
    assert_eq!(w.get_opt(root, "a"), Some(second));
    assert_eq!(w.size(second), ext(160, 120));
}

#[test]
fn contains_is_inclusive_on_both_edges() {
    let mut w = Window::root(ext(1920, 1080));
    let root = w.root_id();
    let d = w
        .top_left(root, "dialog", perc(50).unwrap(), perc(25).unwrap())
        .unwrap();
    // corners are (480,270)..(1440,810), inclusive
    assert!(w.contains(d, (480u32, 270u32)));
    assert!(w.contains(d, (1440u32, 810u32)));
    assert!(w.contains(d, (1000u32, 500u32)));
    assert!(!w.contains(d, (479u32, 270u32)));
    assert!(!w.contains(d, (1441u32, 810u32)));
    // array coordinates work the same way
    assert!(w.contains(d, [480u32, 270u32]));
    assert!(!w.contains(d, [0u32, 0u32]));
}

#[test]
fn flattened_accessors() {
    let mut w = Window::root(ext(1920, 1080));
    let root = w.root_id();
    let d = w
        .top_left(root, "dialog", perc(50).unwrap(), perc(25).unwrap())
        .unwrap();
    assert_eq!(w.coords(d), (480, 270, 1440, 810));
    assert_eq!(w.xywh(d), (480, 270, 960, 540));
    assert_eq!(w.for_coords(d, |a, b, c, e| (a, b, c, e)), (480, 270, 1440, 810));
    assert_eq!(w.for_xywh(d, |a, b, c, e| (a, b, c, e)), (480, 270, 960, 540));
    assert_eq!(
        w.for_corners(d, |tl, br| (tl, br)),
        (ext(480, 270), ext(1440, 810))
    );
    assert_eq!(
        w.for_corners_offset(d, |tl, br| (tl, br)),
        (ext(480, 270), ext(480, 270))
    );
}

#[test]
fn zero_size_child_is_a_point() {
    let mut w = Window::root(ext(1920, 1080));
    let root = w.root_id();
    let z = w
        .top_left(root, "z", perc(0).unwrap(), perc(10).unwrap())
        .unwrap();
    assert_eq!(w.size(z), ext(0, 0));
    assert_eq!(w.corners(z), (ext(192, 108), ext(192, 108)));
    assert!(w.contains(z, (192u32, 108u32)));
    assert!(!w.contains(z, (193u32, 108u32)));
}

#[test]
fn shared_tree_reads_through_lock() {
    let mut w = Window::root(ext(1920, 1080));
    let root = w.root_id();
    let d = w
        .top_left(root, "dialog", perc(50).unwrap(), perc(25).unwrap())
        .unwrap();
    let lock = window_layout::share(w);

    let h1 = window_layout::read_lock(&lock);
    let h2 = window_layout::read_lock(&lock);
    assert_eq!(h1.borrow().corners(d), (ext(480, 270), ext(1440, 810)));
    assert_eq!(h2.borrow().corners(d), (ext(480, 270), ext(1440, 810)));
    h1.release_read();
    h2.release_read();

    let (mut t, wh) = window_layout::write_lock(&lock);
    t.remove(d);
    assert_eq!(t.get_opt(root, "dialog"), None);
    wh.release_write(t);

    let h3 = window_layout::read_lock(&lock);
    assert_eq!(h3.borrow().get_opt(root, "dialog"), None);
    h3.release_read();
}
