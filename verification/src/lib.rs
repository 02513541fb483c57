//! Statistics for performance monitoring: windows of recent items,
//! pseudo-log and floating-point histograms, the print options shared by
//! the statistics types, and the formatting used to print them.

use vstd::prelude::*;
use vstd::string::StringExecFns;
use std::rc::Rc;
use std::cell::RefCell;

pub mod window;
pub mod printable;
pub mod log_histogram;
pub mod float_histogram;
pub mod merge;
pub mod hier;
pub mod gen_hier;
pub mod counter;
pub mod ticks;

use float_histogram::HistoOpts;

verus! {

/// A destination for printed output, one line at a time.  The print
/// method itself ends the line.
pub trait Printer {
    /// Prints one line of output.
    fn print(&mut self, output: &str);
}

#[verifier::external_type_specification]
#[verifier::external_body]
#[verifier::reject_recursive_types(T)]
pub struct ExRefCell<T: ?Sized>(RefCell<T>);

/// A shareable printer.
pub type PrinterBox = Rc<RefCell<dyn Printer>>;

pub type PrinterOption = Option<PrinterBox>;

/// Another handle on the same printer, if there is one.  This wraps the
/// `Clone` impl of `Option` from std, here on an `Option<Rc<_>>`: it
/// clones the `Rc` inside, which makes a new pointer to the same
/// allocation.  The contract claims that the result equals the argument.
#[verifier::external_body]
pub(crate) fn share_printer(printer: &PrinterOption) -> (r: PrinterOption)
    ensures
        r == *printer,
{
    printer.clone()
}

pub type TitleOption = Option<String>;

pub type UnitsOption = Option<Units>;

pub type HistoOption = Option<HistoOpts>;

pub type PrintOption = Option<PrintOpts>;

/// The largest unbiased exponent of an IEEE binary64 value.
pub fn max_exponent() -> (r: isize)
    ensures
        r == 1023,
{
    1023
}

/// The largest biased exponent of a finite IEEE binary64 value.
pub fn max_biased_exponent() -> (r: isize)
    ensures
        r == 2046,
{
    max_exponent() + exponent_bias()
}

/// The smallest unbiased exponent of a normal IEEE binary64 value.
pub fn min_exponent() -> (r: isize)
    ensures
        r == -1022,
{
    -1022
}

/// The bias of the IEEE binary64 exponent field.
pub fn exponent_bias() -> (r: isize)
    ensures
        r == 1023,
{
    1023
}

/// The separator placed between a set's title and a member's title.
pub open spec fn title_separator() -> Seq<char> {
    seq![' ', '=', '=', '>', ' ']
}

/// The hierarchical title of `title` inside a set titled `prefix`.
pub open spec fn hierarchical_title(prefix: Seq<char>, title: Seq<char>) -> Seq<char> {
    if prefix.len() == 0 {
        title
    } else {
        prefix + title_separator() + title
    }
}

/// Joins a set's title and a member's title with the " ==> " marker,
/// leaving the marker out when the set's title is empty.
pub fn make_title(title_prefix: &str, title: &str) -> (r: String)
    ensures
        r@ == hierarchical_title(title_prefix@, title@),
{
    if title_prefix.is_empty() {
        String::from_str(title)
    } else {
        let mut full_title = String::from_str(title_prefix);
        proof { reveal_strlit(" ==> "); }
        full_title.append(" ==> ");
        full_title.append(title);
        full_title
    }
}

/// Returns the position of the first of `ids` equal to `target`, if any:
/// how a set finds the member or subset that it is asked to remove.
pub fn index_of_id(ids: &Vec<usize>, target: usize) -> (r: Option<usize>)
    ensures
        r is None <==> !ids@.contains(target),
        r matches Some(i) ==> i < ids@.len() && ids@[i as int] == target
            && forall|j: int| 0 <= j < i ==> ids@[j] != target,
{
    let mut i: usize = 0;
    while i < ids.len()
        invariant
            i <= ids@.len(),
            forall|j: int| 0 <= j < i ==> ids@[j] != target,
        decreases ids@.len() - i,
    {
        if ids[i] == target {
            return Some(i);
        }
        i = i + 1;
    }
    None
}

/// The printable names of a value's units.
pub struct Units {
    pub singular: String,
    pub plural: String,
}

impl Units {
    /// Units with empty names, used when printing without units.
    pub fn empty() -> (u: Units)
        ensures
            u.singular@ == Seq::<char>::empty(),
            u.plural@ == Seq::<char>::empty(),
    {
        let singular = String::new();
        let plural = String::new();
        Units { singular, plural }
    }

    /// Units with the given singular and plural names.
    pub fn new(singular: &str, plural: &str) -> (u: Units)
        ensures
            u.singular@ == singular@,
            u.plural@ == plural@,
    {
        let singular = String::from_str(singular);
        let plural = String::from_str(plural);
        Units { singular, plural }
    }

    /// A copy of these units.
    pub fn duplicate(&self) -> (u: Units)
        ensures
            u.singular@ == self.singular@,
            u.plural@ == self.plural@,
    {
        Units { singular: self.singular.clone(), plural: self.plural.clone() }
    }
}

impl Clone for Units {
    fn clone(&self) -> (u: Units)
        ensures
            u.singular@ == self.singular@,
            u.plural@ == self.plural@,
    {
        self.duplicate()
    }
}

impl Default for Units {
    fn default() -> (u: Units)
        ensures
            u.singular@ == Seq::<char>::empty(),
            u.plural@ == Seq::<char>::empty(),
    {
        Units::empty()
    }
}

/// Options for printing a statistics instance.  Each one left out takes
/// its default.
pub struct PrintOpts {
    pub printer: PrinterOption,
    pub title: TitleOption,
    pub units: UnitsOption,
    pub histo_opts: HistoOption,
}

impl Clone for PrintOpts {
    fn clone(&self) -> (p: PrintOpts)
        ensures
            p.title == self.title,
            p.histo_opts == self.histo_opts,
            p.units is Some <==> self.units is Some,
            p.units matches Some(u) ==> u.singular@ == self.units->0.singular@ && u.plural@
                == self.units->0.plural@,
            p.printer == self.printer,
    {
        let printer = share_printer(&self.printer);
        let title = match &self.title {
            Some(title) => Some(title.clone()),
            None => None,
        };
        let units = match &self.units {
            Some(units) => Some(units.duplicate()),
            None => None,
        };
        PrintOpts { printer, title, units, histo_opts: self.histo_opts }
    }
}

/// The title chosen by the print options: the configured title, or else
/// the name.
pub open spec fn chosen_title(print_opts: PrintOption, name: Seq<char>) -> Seq<char> {
    match print_opts {
        Some(opts) => match opts.title {
            Some(title) => title@,
            None => name,
        },
        None => name,
    }
}

/// The printer chosen by the print options, if any.
pub open spec fn chosen_printer(print_opts: PrintOption) -> PrinterOption {
    match print_opts {
        Some(opts) => opts.printer,
        None => None,
    }
}

/// The histogram options chosen by the print options, or the defaults.
pub open spec fn chosen_histo_opts(print_opts: PrintOption) -> HistoOpts {
    match print_opts {
        Some(opts) => match opts.histo_opts {
            Some(histo_opts) => histo_opts,
            None => HistoOpts::spec_default(),
        },
        None => HistoOpts::spec_default(),
    }
}

/// Returns the title to print under: the one in the options, or else the
/// name.
pub fn parse_title(print_opts: &PrintOption, name: &str) -> (r: String)
    ensures
        r@ == chosen_title(*print_opts, name@),
{
    match print_opts {
        Some(print_opts) => {
            match &print_opts.title {
                Some(title) => title.clone(),
                None => String::from_str(name),
            }
        },
        None => String::from_str(name),
    }
}

/// Returns the histogram options: the ones given, or else the defaults.
pub fn parse_histo_opts(print_opts: &PrintOption) -> (r: HistoOpts)
    ensures
        r == chosen_histo_opts(*print_opts),
{
    match print_opts {
        Some(print_opts) => {
            match &print_opts.histo_opts {
                Some(histo_opts) => *histo_opts,
                None => HistoOpts::default(),
            }
        },
        None => HistoOpts::default(),
    }
}

/// The singular and plural unit names chosen by the print options, or
/// empty names.
pub open spec fn chosen_units(print_opts: PrintOption) -> (Seq<char>, Seq<char>) {
    match print_opts {
        Some(opts) => match opts.units {
            Some(units) => (units.singular@, units.plural@),
            None => (Seq::empty(), Seq::empty()),
        },
        None => (Seq::empty(), Seq::empty()),
    }
}

/// Returns the units: the ones given, or else units with empty names.
pub fn parse_units(print_opts: &PrintOption) -> (r: Units)
    ensures
        (r.singular@, r.plural@) == chosen_units(*print_opts),
{
    match print_opts {
        Some(print_opts) => {
            match &print_opts.units {
                Some(units) => units.duplicate(),
                None => Units::empty(),
            }
        },
        None => Units::empty(),
    }
}

} // verus!
