//! Matrices of a page, kept as how they come about.
//!
//! A matrix is a chain of steps over the numbers of the document. Nothing is
//! computed here: whoever places the glyphs works the chain out.

use crate::number::Number;
use vstd::prelude::*;

verus! {

/// A number of the document, its negative, or a hundredth of it.
#[derive(Clone, Copy, Debug, PartialEq, Eq, Structural)]
pub enum Scalar {
    Plain(Number),
    Negated(Number),
    Percent(Number),
}

/// The matrix `[a b c d e f]`, which maps `(x, y)` to
/// `(a x + c y + e, b x + d y + f)`.
#[derive(Clone, Copy, Debug, PartialEq, Eq, Structural)]
pub struct Six {
    pub a: Number,
    pub b: Number,
    pub c: Number,
    pub d: Number,
    pub e: Number,
    pub f: Number,
}

/// One step of a chain: a matrix, given by what it is made of.
#[derive(Clone, Copy, Debug, PartialEq, Eq, Structural)]
pub enum Step {
    /// The matrix itself.
    Matrix(Six),
    /// The translation that takes the point with these real coordinates, given
    /// by their bits, to the origin.
    Origin(u32, u32),
    /// The translation by `(x, y)`.
    Shift(Number, Number),
    /// The translation down by the leading.
    Down(Scalar),
    /// The translation left by a thousandth of `adjust` times the font size
    /// times the horizontal scale.
    Kern { adjust: Number, size: Number, scale: Scalar },
    /// The translation right by a thousandth of `width` times the font size,
    /// plus the character spacing, plus the word spacing where there is one, all
    /// times the horizontal scale.
    Advance { width: Number, size: Number, spacing: Number, word: Option<Number>, scale: Scalar },
}

/// A matrix: the identity, one step, or a step followed by a matrix.
pub enum Transform {
    Identity,
    Only(Step),
    Before(Step, Box<Transform>),
}

/// A matrix in a list of matrices; `Before` names the place of the matrix that
/// follows the step.
#[derive(Clone, Copy, Debug, PartialEq, Eq, Structural)]
pub enum MatNode {
    Identity,
    Only(Step),
    Before(Step, usize),
}

/// The matrix at place `i` of a list.
pub open spec fn chain(nodes: Seq<MatNode>, i: int) -> Transform
    decreases i,
{
    if 0 <= i < nodes.len() {
        match nodes[i] {
            MatNode::Identity => Transform::Identity,
            MatNode::Only(s) => Transform::Only(s),
            MatNode::Before(s, p) => if p < i {
                Transform::Before(s, Box::new(chain(nodes, p as int)))
            } else {
                Transform::Identity
            },
        }
    } else {
        Transform::Identity
    }
}

/// Every matrix of a list names one before it.
pub open spec fn well_founded(nodes: Seq<MatNode>) -> bool {
    forall|i: int|
        0 <= i < nodes.len() ==> (#[trigger] nodes[i] matches MatNode::Before(_, p) ==> p < i)
}

/// A list that begins as another one.
pub open spec fn extends(longer: Seq<MatNode>, shorter: Seq<MatNode>) -> bool {
    &&& shorter.len() <= longer.len()
    &&& forall|i: int| 0 <= i < shorter.len() ==> #[trigger] longer[i] == shorter[i]
}

/// Adding matrices to a list keeps those that are in it.
pub proof fn lemma_chain_stays(shorter: Seq<MatNode>, longer: Seq<MatNode>, i: int)
    requires
        extends(longer, shorter),
        0 <= i < shorter.len(),
    ensures
        chain(longer, i) == chain(shorter, i),
    decreases i,
{
    assert(longer[i] == shorter[i]);
    match shorter[i] {
        MatNode::Before(s, p) => {
            if p < i {
                lemma_chain_stays(shorter, longer, p as int);
            }
        },
        _ => {},
    }
}

/// Put a matrix at the end of a list and give its place.
pub fn put_node(nodes: &mut Vec<MatNode>, node: MatNode) -> (r: usize)
    requires
        well_founded(old(nodes)@),
        node matches MatNode::Before(_, p) ==> p < old(nodes)@.len(),
    ensures
        final(nodes)@ == old(nodes)@.push(node),
        r == old(nodes)@.len(),
        well_founded(final(nodes)@),
        extends(final(nodes)@, old(nodes)@),
        chain(final(nodes)@, r as int) == (match node {
            MatNode::Identity => Transform::Identity,
            MatNode::Only(s) => Transform::Only(s),
            MatNode::Before(s, p) => Transform::Before(s, Box::new(chain(old(nodes)@, p as int))),
        }),
{
    let r: usize = nodes.len();
    nodes.push(node);
    proof {
        match node {
            MatNode::Before(s, p) => {
                lemma_chain_stays(old(nodes)@, nodes@, p as int);
            },
            _ => {},
        }
    }
    r
}

} // verus!
