//! A simple counter of events or summed values, printed alongside other
//! statistics.

use vstd::prelude::*;
use vstd::string::StringExecFns;
use crate::{PrintOption, PrinterOption, Units, parse_title, parse_units, chosen_title, chosen_units};
use crate::{chosen_printer, share_printer};

verus! {

/// A counter that sums non-negative values.
pub struct Counter {
    name: String,
    title: String,
    count: i64,
    id: usize,
    printer: PrinterOption,
    units: Units,
}

impl Counter {
    /// The current total.
    pub closed spec fn spec_count(&self) -> int {
        self.count as int
    }

    /// The name given at creation.
    pub closed spec fn spec_name(&self) -> Seq<char> {
        self.name@
    }

    /// The title used for printing.
    pub closed spec fn spec_title(&self) -> Seq<char> {
        self.title@
    }

    /// The identifier assigned by a containing set.
    pub closed spec fn spec_id(&self) -> nat {
        self.id as nat
    }

    /// The singular name of the counted units.
    pub closed spec fn spec_units_singular(&self) -> Seq<char> {
        self.units.singular@
    }

    /// The plural name of the counted units.
    pub closed spec fn spec_units_plural(&self) -> Seq<char> {
        self.units.plural@
    }

    /// The printer configured at creation, if any.
    pub closed spec fn spec_printer(&self) -> PrinterOption {
        self.printer
    }

    /// The total is never negative.
    pub closed spec fn well_formed(&self) -> bool {
        self.count >= 0
    }

    /// Creates a counter at zero.  The title defaults to the name.
    pub fn new(name: &str, print_opts: &PrintOption) -> (c: Counter)
        ensures
            c.well_formed(),
            c.spec_count() == 0,
            c.spec_name() == name@,
            c.spec_title() == chosen_title(*print_opts, name@),
            c.spec_id() == usize::MAX,
            (c.spec_units_singular(), c.spec_units_plural()) == chosen_units(*print_opts),
            c.spec_printer() == chosen_printer(*print_opts),
    {
        let title = parse_title(print_opts, name);
        let units = parse_units(print_opts);
        let printer = match print_opts {
            Some(opts) => share_printer(&opts.printer),
            None => None,
        };
        let name = String::from_str(name);
        Counter { name, title, count: 0, id: usize::MAX, printer, units }
    }

    /// Replaces the units printed with the count.
    pub fn set_units(&mut self, units: Units)
        ensures
            final(self).spec_units_singular() == units.singular@,
            final(self).spec_units_plural() == units.plural@,
            final(self).spec_count() == old(self).spec_count(),
            final(self).spec_title() == old(self).spec_title(),
            final(self).spec_name() == old(self).spec_name(),
            final(self).spec_id() == old(self).spec_id(),
            old(self).well_formed() ==> final(self).well_formed(),
            final(self).spec_printer() == old(self).spec_printer(),
    {
        self.units = units;
    }

    /// The amount one event adds.
    pub fn event_increment(&self) -> (r: i64)
        ensures
            r == 1,
    {
        1
    }

    /// Adds a non-negative value to the counter.
    pub fn record_i64(&mut self, sample: i64)
        requires
            sample >= 0,
            old(self).spec_count() + sample <= i64::MAX,
        ensures
            final(self).spec_count() == old(self).spec_count() + sample,
            old(self).well_formed() ==> final(self).well_formed(),
            final(self).spec_title() == old(self).spec_title(),
            final(self).spec_name() == old(self).spec_name(),
            final(self).spec_id() == old(self).spec_id(),
            final(self).spec_units_singular() == old(self).spec_units_singular(),
            final(self).spec_units_plural() == old(self).spec_units_plural(),
            final(self).spec_printer() == old(self).spec_printer(),
    {
        self.count = self.count + sample;
    }

    /// Adds one to the counter.
    pub fn record_event(&mut self)
        requires
            old(self).spec_count() < i64::MAX,
        ensures
            final(self).spec_count() == old(self).spec_count() + 1,
            old(self).well_formed() ==> final(self).well_formed(),
            final(self).spec_title() == old(self).spec_title(),
            final(self).spec_name() == old(self).spec_name(),
            final(self).spec_id() == old(self).spec_id(),
            final(self).spec_units_singular() == old(self).spec_units_singular(),
            final(self).spec_units_plural() == old(self).spec_units_plural(),
            final(self).spec_printer() == old(self).spec_printer(),
    {
        self.count = self.count + self.event_increment();
    }

    /// Adds one to the counter and returns the amount added.
    pub fn record_event_report(&mut self) -> (r: i64)
        requires
            old(self).spec_count() < i64::MAX,
        ensures
            r == 1,
            final(self).spec_count() == old(self).spec_count() + 1,
            old(self).well_formed() ==> final(self).well_formed(),
            final(self).spec_title() == old(self).spec_title(),
            final(self).spec_name() == old(self).spec_name(),
            final(self).spec_id() == old(self).spec_id(),
            final(self).spec_units_singular() == old(self).spec_units_singular(),
            final(self).spec_units_plural() == old(self).spec_units_plural(),
            final(self).spec_printer() == old(self).spec_printer(),
    {
        self.count = self.count + self.event_increment();
        self.event_increment()
    }

    /// Returns the total.
    pub fn count(&self) -> (r: u64)
        requires
            self.well_formed(),
        ensures
            r == self.spec_count(),
    {
        self.count as u64
    }

    /// Resets the total to zero.
    pub fn clear(&mut self)
        ensures
            final(self).spec_count() == 0,
            final(self).well_formed(),
            final(self).spec_title() == old(self).spec_title(),
            final(self).spec_name() == old(self).spec_name(),
            final(self).spec_id() == old(self).spec_id(),
            final(self).spec_units_singular() == old(self).spec_units_singular(),
            final(self).spec_units_plural() == old(self).spec_units_plural(),
            final(self).spec_printer() == old(self).spec_printer(),
    {
        self.count = 0;
    }

    /// Returns the name given at creation.
    pub fn name(&self) -> (r: String)
        ensures
            r@ == self.spec_name(),
    {
        self.name.clone()
    }

    /// Returns the title used for printing.
    pub fn title(&self) -> (r: String)
        ensures
            r@ == self.spec_title(),
    {
        self.title.clone()
    }

    /// Replaces the title used for printing.
    pub fn set_title(&mut self, title: &str)
        ensures
            final(self).spec_title() == title@,
            final(self).spec_count() == old(self).spec_count(),
            old(self).well_formed() ==> final(self).well_formed(),
            final(self).spec_name() == old(self).spec_name(),
            final(self).spec_id() == old(self).spec_id(),
            final(self).spec_units_singular() == old(self).spec_units_singular(),
            final(self).spec_units_plural() == old(self).spec_units_plural(),
            final(self).spec_printer() == old(self).spec_printer(),
    {
        self.title = String::from_str(title);
    }

    /// Records the identifier assigned by a containing set.
    pub fn set_id(&mut self, id: usize)
        ensures
            final(self).spec_id() == id,
            final(self).spec_count() == old(self).spec_count(),
            final(self).spec_title() == old(self).spec_title(),
            old(self).well_formed() ==> final(self).well_formed(),
            final(self).spec_name() == old(self).spec_name(),
            final(self).spec_units_singular() == old(self).spec_units_singular(),
            final(self).spec_units_plural() == old(self).spec_units_plural(),
            final(self).spec_printer() == old(self).spec_printer(),
    {
        self.id = id;
    }

    /// Returns the identifier assigned by a containing set.
    pub fn id(&self) -> (r: usize)
        ensures
            r == self.spec_id(),
    {
        self.id
    }

    /// Returns the configured printer, if any.
    pub fn printer(&self) -> (r: PrinterOption)
        ensures
            r == self.spec_printer(),
    {
        share_printer(&self.printer)
    }

    /// Returns the units printed with the count.
    pub fn units(&self) -> (r: &Units)
        ensures
            r.singular@ == self.spec_units_singular(),
            r.plural@ == self.spec_units_plural(),
    {
        &self.units
    }
}

} // verus!
