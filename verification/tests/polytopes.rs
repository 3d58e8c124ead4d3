use std::rc::Rc;

use block_matrix::polytope::Polytope;

fn labels(p: &Polytope<char>) -> Vec<char> {
    p.vertices().iter().map(|v| **v).collect()
}

#[test]
fn faces_leave_out_one_vertex_each() {
    let p = Polytope::new(vec![Rc::new('a'), Rc::new('b'), Rc::new('c')]);
    assert_eq!(p.dimension(), 3);
    let faces = p.faces();
    assert_eq!(faces.len(), 3);
    assert_eq!(labels(&faces[0]), vec!['b', 'c']);
    assert_eq!(labels(&faces[1]), vec!['a', 'c']);
    assert_eq!(labels(&faces[2]), vec!['a', 'b']);
    assert_eq!(labels(&p), vec!['a', 'b', 'c']);
    assert_eq!(**p.index(1), 'b');
}

#[test]
fn faces_share_the_vertices() {
    let v = Rc::new(vec![1.5f64, 2.5]);
    let w = Rc::new(vec![0.0f64, 1.0]);
    let p = Polytope::new(vec![Rc::clone(&v), Rc::clone(&w)]);
    assert_eq!(Rc::strong_count(&v), 2);
    let faces = p.faces();
    assert_eq!(Rc::strong_count(&v), 3);
    assert_eq!(Rc::strong_count(&w), 3);
    assert!(Rc::ptr_eq(faces[1].index(0), &v));
    assert!(Rc::ptr_eq(faces[0].index(0), &w));
    assert_eq!(**faces[1].index(0), vec![1.5, 2.5]);
}

#[test]
fn a_point_has_one_empty_face() {
    let p = Polytope::new(vec![Rc::new(7u8)]);
    let faces = p.faces();
    assert_eq!(faces.len(), 1);
    assert_eq!(faces[0].dimension(), 0);
    let nothing: Polytope<u8> = Polytope::new(Vec::new());
    assert_eq!(nothing.dimension(), 0);
    assert_eq!(nothing.faces().len(), 0);
}
