use worldrenderer::gpu::{adapter_label, adapter_name, SlotAllocator, SurfaceSize, UploadBudget};
use worldrenderer::terrain_gpu::{instance_range, layer_cap, mesh_range};

#[test]
fn a_frame_overruns_its_budget_by_one_upload_at_most() {
    let mut b = UploadBudget::new(100);
    assert!(b.take(60));
    assert!(!b.fits(41));
    assert!(!b.take(41));
    assert_eq!(b.spent(), 60);
    assert!(b.take(40));
    assert!(!b.take(1));
    b.reset();
    assert_eq!(b.spent(), 0);
    assert!(b.take(1000));
    assert!(!b.take(1));
    assert_eq!(b.bytes_per_frame(), 100);
    b.bytes_per_frame = 2000;
    assert!(b.fits(1000) && !b.fits(1001));
}

#[test]
fn slots_go_out_once_and_come_back() {
    let mut s = SlotAllocator::new(3);
    assert_eq!(s.allocate(), Some(0));
    assert_eq!(s.allocate(), Some(1));
    assert_eq!(s.used(), 2);
    s.free(0);
    assert_eq!(s.allocate(), Some(0));
    assert_eq!(s.allocate(), Some(2));
    assert_eq!(s.allocate(), None);
    assert_eq!((s.used(), s.capacity()), (3, 3));
}

#[test]
fn surfaces_have_pixels() {
    let mut s = SurfaceSize::of_canvas(0, 20);
    assert_eq!((s.width, s.height), (1, 20));
    assert!(!s.resize(1, 20));
    assert!(!s.resize(0, 5));
    assert!(s.resize(4, 5));
    assert_eq!((s.width, s.height), (4, 5));
}

#[test]
fn adapters_have_plain_names() {
    assert_eq!(adapter_label("  A \"b\\c ", "x"), "A 'b c");
    assert_eq!(adapter_label(" ", " w "), "w");
    assert_eq!(adapter_label("", "\t"), "unnamed");
    let s = |t: &str| t.to_string();
    assert_eq!(adapter_name(s("v"), s(""), s("d")), "v d");
    assert_eq!(adapter_name(s(""), s(""), s("")), "");
}

#[test]
fn arena_ranges_follow_one_another() {
    assert_eq!(layer_cap(2048), 768);
    assert_eq!(layer_cap(256), 256);
    assert_eq!(mesh_range(0), (0, 39168));
    assert_eq!(mesh_range(2), (78336, 117504));
    assert_eq!(instance_range(3), (264, 352));
}
