use rustbatch::id_generator::IDGenerator;
use rustbatch::math::clamp;
use rustbatch::render::Vertex;
use rustbatch::storage::ComponentArray;

#[test]
fn id_generator_counts_upward() {
    let mut gen: IDGenerator<u64> = IDGenerator::new();
    assert_eq!(gen.gen(), 1);
    assert_eq!(gen.gen(), 2);
    assert_eq!(gen.gen(), 3);
}

#[test]
fn id_generator_other_widths() {
    let mut g16: IDGenerator<u16> = IDGenerator::new();
    assert_eq!(g16.gen(), 1u16);
    let mut g32: IDGenerator<u32> = IDGenerator::new();
    assert_eq!(g32.gen(), 1u32);
    let mut gus: IDGenerator<usize> = IDGenerator::new();
    assert_eq!(gus.gen(), 1usize);
}

#[test]
fn component_array_starts_empty() {
    // every accessor demands an existing slot and insert demands a seeded
    // store, so a fresh array only constructs; it mirrors the original,
    // whose first insert on an empty store underflows
    let arr: ComponentArray<u32> = ComponentArray::new();
    drop(arr);
}

#[test]
fn clamp_cases() {
    assert_eq!(clamp(5, 0, 10), 5);
    assert_eq!(clamp(-3, 0, 10), 0);
    assert_eq!(clamp(42, 0, 10), 10);
    assert_eq!(clamp(0, 0, 10), 0);
    assert_eq!(clamp(10, 0, 10), 10);
}

#[test]
fn vertex_accepts_component_counts_up_to_four() {
    for size in 0..5usize {
        let _v = Vertex::new(size);
    }
}
