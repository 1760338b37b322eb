use vstd::prelude::*;

verus! {

use crate::phase_polynomial::Monomial;

/// The three colours of the hypercube architecture's qubits.
#[derive(Debug, Clone, Copy, PartialEq, Eq, Hash, Structural)]
pub enum Color {
    Red,
    Blue,
    Green,
}

/// The colour of qubit `index`: red, blue, green in turn.
pub open spec fn color_of(index: u32) -> Color {
    if index % 3 == 0 {
        Color::Red
    } else if index % 3 == 1 {
        Color::Blue
    } else {
        Color::Green
    }
}

/// For each colour, the node (qubit index divided by three) of a monomial's
/// qubit of that colour, if it has one; where two share a colour, the later
/// one.
#[derive(Debug, Clone, Copy, PartialEq, Eq, Structural)]
pub struct MonomialColors {
    pub red: Option<u32>,
    pub blue: Option<u32>,
    pub green: Option<u32>,
}

/// The node of the last qubit in `qs` with colour `c`, if any.
pub open spec fn node_of_color(qs: Seq<Qubit>, c: Color) -> Option<u32>
    decreases qs.len(),
{
    if qs.len() == 0 {
        None
    } else if qs.last().color == c {
        Some(qs.last().index / 3)
    } else {
        node_of_color(qs.drop_last(), c)
    }
}

impl Color {
    /// Groups a monomial's qubits by colour; since a qubit's node is shared
    /// by one qubit of each colour, node indices run below the number of
    /// nodes.
    pub fn seperate_monomial_colors(monomial: &Monomial) -> (r: MonomialColors)
        ensures
            r.red == node_of_color(monomial.qubits(), Color::Red),
            r.blue == node_of_color(monomial.qubits(), Color::Blue),
            r.green == node_of_color(monomial.qubits(), Color::Green),
    {
        let mut r = MonomialColors { red: None, blue: None, green: None };
        let qs = monomial.qubit_vec();
        let mut i: usize = 0;
        while i < qs.len()
            invariant
                i <= qs@.len(),
                qs@ == monomial.qubits(),
                r.red == node_of_color(qs@.take(i as int), Color::Red),
                r.blue == node_of_color(qs@.take(i as int), Color::Blue),
                r.green == node_of_color(qs@.take(i as int), Color::Green),
            decreases qs@.len() - i,
        {
            let q = qs[i];
            assert(qs@.take(i as int + 1).drop_last() =~= qs@.take(i as int));
            match q.color {
                Color::Red => r.red = Some(q.index / 3),
                Color::Blue => r.blue = Some(q.index / 3),
                Color::Green => r.green = Some(q.index / 3),
            }
            i = i + 1;
        }
        assert(qs@.take(qs@.len() as int) =~= qs@);
        r
    }
}

/// A qubit of the circuit, with the colour that its index gives it.
#[derive(Debug, Clone, Copy, PartialEq, Eq, Hash, Structural)]
pub struct Qubit {
    pub index: u32,
    pub color: Color,
}

impl Qubit {
    fn assign_color(index: u32) -> (r: Color)
        ensures
            r == color_of(index),
    {
        let colors = [Color::Red, Color::Blue, Color::Green];
        colors[(index % 3) as usize]
    }

    /// Qubit `index`, coloured red, blue, green in turn.
    pub fn new(index: u32) -> (r: Self)
        ensures
            r.index == index,
            r.color == color_of(index),
    {
        Self { index, color: Self::assign_color(index) }
    }
}

} // verus!
