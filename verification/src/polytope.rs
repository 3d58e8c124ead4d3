//! Polytopes as lists of shared vertices, and their faces.

use vstd::prelude::*;
use std::rc::Rc;

verus! {

/// Another handle to the vertex behind `v`.
///
/// Trusted: this is `Rc::clone` of the standard library, which hands out
/// a second pointer to the same allocation and copies nothing. The
/// contract claims only that the new handle points to the same value.
#[verifier::external_body]
fn share<V>(v: &Rc<V>) -> (r: Rc<V>)
    ensures
        r == *v,
{
    Rc::clone(v)
}

/// A polytope given by its vertices. A vertex is any value `V`; the
/// polytope shares it with whoever else holds a handle to it.
pub struct Polytope<V> {
    vertices: Vec<Rc<V>>,
}

impl<V> Polytope<V> {
    /// The vertices in order.
    pub closed spec fn vertex_seq(&self) -> Seq<Rc<V>> {
        self.vertices@
    }

    /// A polytope with the given vertices.
    pub fn new(vertices: Vec<Rc<V>>) -> (p: Polytope<V>)
        ensures
            p.vertex_seq() == vertices@,
    {
        Polytope { vertices }
    }

    /// The number of vertices.
    pub fn dimension(&self) -> (n: usize)
        ensures
            n == self.vertex_seq().len(),
    {
        self.vertices.len()
    }

    /// The faces: for every vertex, the polytope of all the others, in
    /// the order of the vertex left out.
    pub fn faces(&self) -> (faces: Vec<Polytope<V>>)
        ensures
            faces@.len() == self.vertex_seq().len(),
            forall|i: int|
                0 <= i < faces@.len() ==> (#[trigger] faces@[i]).vertex_seq()
                    == self.vertex_seq().remove(i),
    {
        let n = self.vertices.len();
        let mut faces: Vec<Polytope<V>> = Vec::new();
        let mut i: usize = 0;
        while i < n
            invariant
                n == self.vertices@.len(),
                i <= n,
                faces@.len() == i,
                forall|k: int|
                    0 <= k < i ==> (#[trigger] faces@[k]).vertex_seq() == self.vertex_seq().remove(
                        k,
                    ),
            decreases n - i,
        {
            let mut face_vertices: Vec<Rc<V>> = Vec::new();
            let mut j: usize = 0;
            while j < n
                invariant
                    n == self.vertices@.len(),
                    i < n,
                    j <= n,
                    face_vertices@.len() == (if j <= i { j as int } else { j - 1 }),
                    forall|k: int|
                        0 <= k < face_vertices@.len() ==> #[trigger] face_vertices@[k]
                            == self.vertices@[if k < i { k } else { k + 1 }],
                decreases n - j,
            {
                if i != j {
                    face_vertices.push(share(&self.vertices[j]));
                }
                j += 1;
            }
            assert(face_vertices@ =~= self.vertex_seq().remove(i as int));
            faces.push(Polytope::new(face_vertices));
            i += 1;
        }
        faces
    }

    /// The vertices in order.
    pub fn vertices(&self) -> (v: &Vec<Rc<V>>)
        ensures
            v@ == self.vertex_seq(),
    {
        &self.vertices
    }

    /// The vertex at a position.
    pub fn index(&self, index: usize) -> (v: &Rc<V>)
        requires
            index < self.vertex_seq().len(),
        ensures
            *v == self.vertex_seq()[index as int],
    {
        &self.vertices[index]
    }
}

} // verus!
