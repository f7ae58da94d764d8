use splash_space::graph6::to_graph6;

#[test]
fn graph6_empty_graph() {
    assert_eq!(to_graph6(&vec![]), "?");
}

#[test]
fn graph6_single_vertex() {
    assert_eq!(to_graph6(&vec![vec![]]), "@");
}

#[test]
fn graph6_path_on_three_vertices() {
    let adj = vec![vec![1], vec![0, 2], vec![1]];
    assert_eq!(to_graph6(&adj), "Bg");
}

#[test]
fn graph6_triangle() {
    let adj = vec![vec![1, 2], vec![0, 2], vec![0, 1]];
    assert_eq!(to_graph6(&adj), "Bw");
}

#[test]
fn graph6_edgeless() {
    assert_eq!(to_graph6(&vec![vec![], vec![], vec![]]), "B?");
}

#[test]
fn graph6_accepts_one_sided_listing() {
    // an edge listed on only one endpoint still serializes
    let one_sided = vec![vec![1], vec![], vec![]];
    let both_sides = vec![vec![1], vec![0], vec![]];
    assert_eq!(to_graph6(&one_sided), to_graph6(&both_sides));
}

#[test]
fn graph6_five_cycle() {
    let adj = vec![
        vec![1, 4],
        vec![0, 2],
        vec![1, 3],
        vec![2, 4],
        vec![0, 3],
    ];
    // columns: (0,1)=1 | (0,2)=0,(1,2)=1 | (0,3)=0,(1,3)=0,(2,3)=1 |
    // (0,4)=1,(1,4)=0,(2,4)=0,(3,4)=1; padded bits 101001 100100 give
    // values 41,36, hence chars 104,99
    assert_eq!(to_graph6(&adj), "Dhc");
}
