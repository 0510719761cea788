//! What a query over a composition asks for.

use crate::tag::Pattern;
use crate::value::Bound;
use vstd::prelude::*;

verus! {

/// What a query asks for: a threshold, a grouping, a pattern and an order.
#[derive(Debug)]
pub struct Config {
    pub bound: Bound,
    pub composition: Option<Composition>,
    pub pattern: Pattern,
    pub sort: Option<Sort>,
}

impl Clone for Config {
    fn clone(&self) -> (config: Self)
        ensures
            config.bound == self.bound,
            config.composition == self.composition,
            config.pattern@ == self.pattern@,
            config.sort == self.sort,
    {
        Config {
            bound: self.bound,
            composition: self.composition,
            pattern: self.pattern.clone(),
            sort: self.sort,
        }
    }
}

impl Default for Config {
    fn default() -> (config: Self)
        ensures
            config.bound == Bound::Unbounded,
            config.composition is None,
            config.pattern@ == (None::<Seq<char>>, None::<Seq<char>>, None::<Seq<char>>),
            config.sort is None,
    {
        Config {
            bound: Bound::Unbounded,
            composition: None,
            pattern: Pattern::new([None, None, None]),
            sort: None,
        }
    }
}

/// Which side of the computation is shown.
#[derive(Clone, Copy, Debug, PartialEq, Eq, Structural)]
pub enum Io {
    Output,
    Input,
}

impl Default for Io {
    fn default() -> (io: Self)
        ensures
            io == Io::Input,
    {
        Io::Input
    }
}

/// How the input is shown.
#[derive(Clone, Copy, Debug, PartialEq, Eq, Structural)]
pub enum InputView {
    List,
    Text,
}

impl Default for InputView {
    fn default() -> (view: Self)
        ensures
            view == InputView::List,
    {
        InputView::List
    }
}

/// What the entries of a species are ordered by.
#[derive(Clone, Copy, Debug, PartialEq, Eq, Structural)]
pub enum Sort {
    Key,
    Value,
}

impl Default for Sort {
    fn default() -> (sort: Self)
        ensures
            sort == Sort::Key,
    {
        Sort::Key
    }
}

impl Sort {
    /// The name of the order as it is displayed.
    pub fn to_string(&self) -> (text: String)
        ensures
            text@ == match *self {
                Sort::Key => "Key"@,
                Sort::Value => "Value"@,
            },
    {
        match self {
            Sort::Key => "Key".to_owned(),
            Sort::Value => "Value".to_owned(),
        }
    }
}

/// How the output is shown.
#[derive(Clone, Copy, Debug, PartialEq, Eq, Structural)]
pub enum OutputView {
    List,
    Plot,
    Table,
}

impl Default for OutputView {
    fn default() -> (view: Self)
        ensures
            view == OutputView::List,
    {
        OutputView::List
    }
}

/// How triacylglycerols are grouped for reporting.
#[derive(Clone, Copy, Debug, PartialEq, Eq, Structural)]
pub enum Composition {
    PositionalSpecie,
    PositionalType,
}

impl Composition {
    /// The full name of a grouping; the empty text for none.
    pub fn name(positional_composition: &Option<Self>) -> (text: &'static str)
        ensures
            text@ == match *positional_composition {
                None => ""@,
                Some(Composition::PositionalSpecie) => "Positional-specie composition"@,
                Some(Composition::PositionalType) => "Positional-type composition"@,
            },
    {
        match positional_composition {
            None => "",
            Some(Composition::PositionalSpecie) => "Positional-specie composition",
            Some(Composition::PositionalType) => "Positional-type composition",
        }
    }

    /// The short name of a grouping; the empty text for none.
    pub fn abbreviation(positional_composition: &Option<Self>) -> (text: &'static str)
        ensures
            text@ == match *positional_composition {
                None => ""@,
                Some(Composition::PositionalSpecie) => "PSC"@,
                Some(Composition::PositionalType) => "PTC"@,
            },
    {
        match positional_composition {
            None => "",
            Some(Composition::PositionalSpecie) => "PSC",
            Some(Composition::PositionalType) => "PTC",
        }
    }
}

} // verus!
