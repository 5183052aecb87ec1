//! The switch in front of the console: output lines pass only while
//! printing is enabled.

use vstd::prelude::*;

verus! {

/// Decides whether output lines are shown.
#[derive(Clone, Copy, Debug)]
pub struct Printer {
    to_print: bool,
}

impl Printer {
    /// Whether lines pass.
    pub closed spec fn enabled(&self) -> bool {
        self.to_print
    }

    /// A printer that shows lines if `to_print` is set.
    pub fn new(to_print: bool) -> (printer: Self)
        ensures
            printer.enabled() == to_print,
    {
        Printer { to_print }
    }

    /// Whether lines pass.
    pub fn is_enabled(&self) -> (r: bool)
        ensures
            r == self.enabled(),
    {
        self.to_print
    }

    /// The line to show for `msg`: `msg` itself while printing is enabled,
    /// nothing otherwise.
    pub fn line(&self, msg: String) -> (r: Option<String>)
        ensures
            r == if self.enabled() {
                Some(msg)
            } else {
                None
            },
    {
        if self.to_print {
            Some(msg)
        } else {
            None
        }
    }
}

} // verus!
