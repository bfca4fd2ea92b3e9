use annex::hnsw::arena::{ArrayChunk, ChunkedArray, VectorArena};

fn bits(values: &[f32]) -> Vec<u32> {
    values.iter().map(|v| v.to_bits()).collect()
}

#[test]
fn array_views_show_what_was_pushed_and_set() {
    let mut array: ChunkedArray<u32> = ChunkedArray::new(2);
    assert!(array.is_empty() && array.view().is_empty());
    for expected in 0..5 {
        assert_eq!(array.push_default(), expected);
    }
    array.set(3, 7);
    let view = array.view();
    assert_eq!(view.len(), 5);
    assert_eq!(view.get_opt(3), Some(&7));
    assert_eq!(view.get_opt(4), Some(&0));
    assert_eq!(view.get_opt(5), None);
    assert_eq!(array.with(3, |v| *v + 1), 8);
    let _ = ArrayChunk::<u8>::new(3);
}

#[test]
fn vectors_of_an_arena_are_found_in_every_chunk() {
    let mut arena = VectorArena::new(2, 3);
    for i in 0..7 {
        assert_eq!(arena.push(&bits(&[i as f32, -1.0])), i);
    }
    assert_eq!(arena.len(), 7);
    let view = arena.view();
    for i in 0..7 {
        assert_eq!(view.get(i), &bits(&[i as f32, -1.0])[..]);
    }
}
