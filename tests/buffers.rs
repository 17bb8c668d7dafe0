use svg_mesh::buffer::{merge_tessellated, VertexBuffers};

fn buf(vertices: Vec<u8>, indices: Vec<u32>) -> VertexBuffers<u8> {
    VertexBuffers { vertices, indices }
}

#[test]
fn extend_one_offsets_indices() {
    let mut a = buf(vec![1, 2, 3], vec![0, 1, 2]);
    a.extend_one(buf(vec![4, 5, 6, 7], vec![0, 1, 2, 1, 2, 3]));
    assert_eq!(a.vertices, vec![1, 2, 3, 4, 5, 6, 7]);
    assert_eq!(a.indices, vec![0, 1, 2, 3, 4, 5, 4, 5, 6]);
}

#[test]
fn extend_into_empty_keeps_indices() {
    let mut a = VertexBuffers::new();
    a.extend(vec![buf(vec![9, 8, 7], vec![2, 1, 0])]);
    assert_eq!(a.vertices, vec![9, 8, 7]);
    assert_eq!(a.indices, vec![2, 1, 0]);
}

#[test]
fn merging_regroups_in_order() {
    let parts = || {
        vec![
            buf(vec![1, 2, 3], vec![0, 1, 2]),
            buf(vec![4, 5, 6], vec![2, 1, 0]),
            buf(vec![7, 8, 9, 10], vec![0, 1, 3]),
        ]
    };
    let mut all = VertexBuffers::new();
    all.extend(parts());

    let mut p = parts();
    let c = p.pop().unwrap();
    let mut ab = VertexBuffers::new();
    ab.extend(p);
    let mut regrouped = VertexBuffers::new();
    regrouped.extend(vec![ab, c]);

    assert_eq!(all.vertices, regrouped.vertices);
    assert_eq!(all.indices, regrouped.indices);
    assert_eq!(all.vertices, vec![1, 2, 3, 4, 5, 6, 7, 8, 9, 10]);
    assert_eq!(all.indices, vec![0, 1, 2, 5, 4, 3, 6, 7, 9]);
    assert!(all.indices.iter().all(|&i| (i as usize) < all.vertices.len()));
    assert_eq!(all.indices.len() % 3, 0);
}

#[test]
fn failed_descriptors_are_skipped_and_counted() {
    let results: Vec<Result<VertexBuffers<u8>, &str>> = vec![
        Ok(buf(vec![1, 2, 3], vec![0, 1, 2])),
        Err("degenerate"),
        Ok(buf(vec![4, 5, 6], vec![0, 2, 1])),
        Err("self-intersecting"),
    ];
    let (merged, skipped) = merge_tessellated(results);
    assert_eq!(skipped, 2);
    assert_eq!(merged.vertices, vec![1, 2, 3, 4, 5, 6]);
    assert_eq!(merged.indices, vec![0, 1, 2, 3, 5, 4]);
}

#[test]
fn merging_nothing_gives_empty_buffer() {
    let (merged, skipped) = merge_tessellated(Vec::<Result<VertexBuffers<u8>, ()>>::new());
    assert_eq!(skipped, 0);
    assert!(merged.vertices.is_empty());
    assert!(merged.indices.is_empty());
}

#[test]
fn merging_a_merged_tail_keeps_the_whole() {
    let (a, b, c) = (
        buf(vec![1, 2, 3], vec![0, 1, 2]),
        buf(vec![4, 5, 6], vec![2, 1, 0]),
        buf(vec![7, 8, 9, 10], vec![0, 1, 3]),
    );
    let mut m1 = VertexBuffers::new();
    m1.extend(vec![a.clone(), b.clone(), c.clone()]);

    let mut m2 = VertexBuffers::new();
    m2.extend(vec![a.clone(), b.clone()]);
    m2.extend(vec![c.clone()]);

    let mut bc = VertexBuffers::new();
    bc.extend(vec![b, c]);
    let mut m3 = VertexBuffers::new();
    m3.extend(vec![a, bc]);

    assert_eq!(m1.vertices, m2.vertices);
    assert_eq!(m1.vertices, m3.vertices);
    assert_eq!(m1.indices, m2.indices);
    assert_eq!(m1.indices, m3.indices);
}
