//! The statement model that the compiler consumes.

use vstd::prelude::*;
use vstd::string::*;

verus! {

/// A name or a line identifier.
pub type Location = String;

/// A name that a statement gives to its output pole.
pub type Name = String;

/// A line identifier: `L` and a statement index for the output pole of that
/// statement, `U` and a statement index for its input pole.
pub type Line = String;

/// A literal operand.
pub type ConstantNumber = i32;

/// One combinator with the wires bound to its input pole and the names of
/// its output pole.
#[derive(Debug, Clone, PartialEq, Eq)]
pub struct Statement {
    pub wires: Option<Vec<Wire>>,
    pub expr: Expr,
    pub out: Option<Vec<Name>>,
}

/// What a statement computes.
#[derive(Debug, Clone, PartialEq, Eq)]
pub enum Expr {
    Arithmetic(Arithmetic),
    Decider(Decider),
    Constant(Vec<ConstantItem>),
}

/// `out = left op right`.
#[derive(Debug, Clone, PartialEq, Eq)]
pub struct Arithmetic {
    pub left: SignalOrConstant,
    pub op: String,
    pub right: SignalOrConstant,
    pub out: Signal,
}

/// `out` is emitted while `left op right` holds, either with the count of the
/// input (`copy_count`) or with count one.
#[derive(Debug, Clone, PartialEq, Eq)]
pub struct Decider {
    pub left: Signal,
    pub op: String,
    pub right: SignalOrConstant,
    pub out: Signal,
    pub copy_count: bool,
}

/// One signal of a constant combinator with its count.
#[derive(Debug, Clone, PartialEq, Eq)]
pub struct ConstantItem {
    pub signal: Signal,
    pub count: i32,
}

/// Binds the input pole of a statement, on one colour, to the network that
/// `loc` belongs to.
#[derive(Debug, Clone, PartialEq, Eq)]
pub struct Wire {
    pub loc: Location,
    pub color: WireColor,
}

/// The colour of a circuit wire. Networks of different colours never mix.
#[derive(Debug, Clone, Copy, PartialEq, Eq, Hash, Structural)]
pub enum WireColor {
    Red,
    Green,
}

/// An operand that is either a signal or a literal.
#[derive(Debug, Clone, PartialEq, Eq)]
pub enum SignalOrConstant {
    Signal(Signal),
    Constant(i32),
}

/// A signal as written in a statement: a type tag and a name.
#[derive(Debug, Clone, PartialEq, Eq)]
pub struct Signal {
    pub type_: String,
    pub name: String,
}

/// The three kinds of signal that a generated unit can carry.
#[derive(Debug, Clone, Copy, PartialEq, Eq, Hash, Structural)]
pub enum SignalIDType {
    Item,
    Fluid,
    Virtual,
}

/// A signal whose type tag is none of `item`, `fluid` and `virtual`.
#[derive(Debug, Clone, PartialEq, Eq)]
pub struct InvalidSignalType {
    /// The tag as it was written.
    pub type_: String,
}

/// The kind that a type tag stands for, if it is one of the three known tags.
pub open spec fn signal_type_of(tag: Seq<char>) -> Option<SignalIDType> {
    if tag == "item"@ {
        Some(SignalIDType::Item)
    } else if tag == "fluid"@ {
        Some(SignalIDType::Fluid)
    } else if tag == "virtual"@ {
        Some(SignalIDType::Virtual)
    } else {
        None
    }
}

/// The texts of a sequence of strings.
pub open spec fn texts_of(names: Seq<String>) -> Seq<Seq<char>> {
    Seq::new(names.len(), |i: int| names[i]@)
}

/// The locations of the wires of one colour, in the order of the wires.
pub open spec fn locations_of(wires: Seq<Wire>, color: WireColor) -> Seq<Seq<char>>
    decreases wires.len(),
{
    if wires.len() == 0 {
        Seq::empty()
    } else {
        let rest = locations_of(wires.drop_last(), color);
        if wires.last().color == color {
            rest.push(wires.last().loc@)
        } else {
            rest
        }
    }
}

/// Whether `text` equals the literal `lit`.
pub fn text_is(text: &String, lit: &str) -> (b: bool)
    ensures
        b == (text@ == lit@),
{
    let other = String::from_str(lit);
    *text == other
}

impl Signal {
    /// The kind that the signal's type tag stands for.
    pub open spec fn kind(&self) -> Option<SignalIDType> {
        signal_type_of(self.type_@)
    }

    /// Turns the type tag into a signal kind. A tag other than `item`,
    /// `fluid` and `virtual` is reported, with the tag, as an error.
    pub fn type_as_enum(&self) -> (r: Result<SignalIDType, InvalidSignalType>)
        ensures
            match r {
                Ok(kind) => self.kind() == Some(kind),
                Err(e) => self.kind() is None && e.type_@ == self.type_@,
            },
    {
        if text_is(&self.type_, "item") {
            Ok(SignalIDType::Item)
        } else if text_is(&self.type_, "fluid") {
            Ok(SignalIDType::Fluid)
        } else if text_is(&self.type_, "virtual") {
            Ok(SignalIDType::Virtual)
        } else {
            Err(InvalidSignalType { type_: self.type_.clone() })
        }
    }
}

impl Statement {
    /// The wires of the statement; none where the statement lists none.
    pub open spec fn wire_seq(&self) -> Seq<Wire> {
        match self.wires {
            Some(wires) => wires@,
            None => Seq::empty(),
        }
    }

    /// The names given to the output pole; none where the statement lists none.
    pub open spec fn alias_names(&self) -> Seq<Seq<char>> {
        match self.out {
            Some(names) => texts_of(names@),
            None => Seq::empty(),
        }
    }

    /// A constant combinator has a single pole.
    pub open spec fn is_constant(&self) -> bool {
        self.expr is Constant
    }
}

} // verus!
