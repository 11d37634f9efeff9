//! A progress bar's state: a counter advanced towards a fixed total, with
//! display settings.  Drawing it is terminal work and happens outside the
//! library, from these fields.

use vstd::prelude::*;

use crate::color::ColorRef;

verus! {

/// Progress towards a fixed total, with a bar width, fill symbol and colour.
pub struct ProgressBar {
    pub total: u64,
    pub current: u64,
    pub width: usize,
    pub symbol: char,
    pub color_ref: ColorRef,
}

impl ProgressBar {
    /// A bar over `total` steps: not started, fifty columns wide, drawn
    /// with a full block in the default blue.
    pub fn new(total: u64) -> (r: Self)
        ensures
            r.total == total,
            r.current == 0,
            r.width == 50,
            r.symbol == '\u{2588}',
            (r.color_ref matches ColorRef::Named(ns, n) && ns@ == "default"@ && n@ == "blue"@),
    {
        ProgressBar {
            total,
            current: 0,
            width: 50,
            symbol: '\u{2588}',
            color_ref: ColorRef::Named("default".to_owned(), "blue".to_owned()),
        }
    }

    /// The same bar, with the given width.
    pub fn with_width(self, width: usize) -> (r: Self)
        ensures
            r == (ProgressBar { width, ..self }),
    {
        ProgressBar { width, ..self }
    }

    /// The same bar, with the given fill symbol.
    pub fn with_symbol(self, symbol: char) -> (r: Self)
        ensures
            r == (ProgressBar { symbol, ..self }),
    {
        ProgressBar { symbol, ..self }
    }

    /// The same bar, with the given colour.
    pub fn with_color(self, color_ref: ColorRef) -> (r: Self)
        ensures
            r.total == self.total,
            r.current == self.current,
            r.width == self.width,
            r.symbol == self.symbol,
            r.color_ref == color_ref,
    {
        ProgressBar { color_ref, ..self }
    }

    /// Advances the counter by `delta`, clamped at the total.
    pub fn advance(&mut self, delta: u64)
        requires
            old(self).current + delta <= u64::MAX,
        ensures
            final(self).current == (if old(self).current + delta <= old(self).total {
                old(self).current + delta
            } else {
                old(self).total as int
            }),
            final(self).total == old(self).total,
            final(self).width == old(self).width,
            final(self).symbol == old(self).symbol,
            final(self).color_ref == old(self).color_ref,
    {
        let next = self.current + delta;
        self.current = if next <= self.total {
            next
        } else {
            self.total
        };
    }
}

} // verus!
