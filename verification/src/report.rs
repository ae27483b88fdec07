//! The report of a comparison, line by line.

use vstd::prelude::*;
use vstd::string::*;
use crate::ringtones_plist::{mismatch_views, Discrepancy, DiscrepancyView, Mismatch, MismatchView};

verus! {

/// The width to which the name of a field is padded in a report.
pub const LABEL_WIDTH: usize = 21;

/// `label` between double quotes.
pub open spec fn quoted(label: Seq<char>) -> Seq<char> {
    seq!['"'] + label + seq!['"']
}

/// The spaces that bring a text of `length` characters to `width`
/// characters; none where the text is that long already.
pub open spec fn padding(length: nat, width: nat) -> Seq<char> {
    Seq::new(
        if length < width {
            (width - length) as nat
        } else {
            0
        },
        |i: int| ' ',
    )
}

/// The line of a report that shows one mismatch: the quoted name of the
/// field, set to the right in 21 columns, then the fresh text, ` != ` and the
/// text of the catalog.
pub open spec fn mismatch_line(mismatch: MismatchView) -> Seq<char> {
    padding(quoted(mismatch.field.label()).len(), LABEL_WIDTH as nat) + quoted(mismatch.field.label())
        + seq![' '] + mismatch.fresh + seq![' ', '!', '=', ' '] + mismatch.persisted
}

/// The lines of a report that show one discrepancy: the name of the record,
/// and below it either that the catalog `catalog` lacks it or one line for
/// each mismatch.
pub open spec fn report_lines(discrepancy: DiscrepancyView, catalog: Seq<char>) -> Seq<Seq<char>> {
    match discrepancy {
        DiscrepancyView::Missing { name } => seq![name, "not present in "@ + catalog],
        DiscrepancyView::Differs { name, mismatches } => seq![name] + mismatches.map_values(
            |mismatch: MismatchView| mismatch_line(mismatch),
        ),
    }
}

/// The texts of `lines` as mathematical values.
pub open spec fn line_views(lines: Seq<String>) -> Seq<Seq<char>> {
    lines.map_values(|line: String| line@)
}

impl Mismatch {
    /// The line of a report that shows this mismatch.
    pub fn line(&self) -> (text: String)
        ensures
            text@ == mismatch_line(self@),
    {
        let label = self.field.name();
        let length: usize = label.unicode_len();
        let spaces: usize = if length < LABEL_WIDTH - 2 {
            LABEL_WIDTH - 2 - length
        } else {
            0
        };
        let mut text = String::new();
        let mut i: usize = 0;
        while i < spaces
            invariant
                i <= spaces,
                text@ == Seq::new(i as nat, |i: int| ' '),
            decreases spaces - i,
        {
            text.push(' ');
            i = i + 1;
        }
        assert(text@ =~= padding(quoted(label@).len(), LABEL_WIDTH as nat));
        text.push('"');
        text.append(label);
        text.push('"');
        text.push(' ');
        text.append(self.fresh.as_str());
        text.push(' ');
        text.push('!');
        text.push('=');
        text.push(' ');
        text.append(self.persisted.as_str());
        assert(text@ =~= mismatch_line(self@));
        text
    }
}

impl Discrepancy {
    /// The lines of a report that show this discrepancy; `catalog` is how the
    /// report calls the catalog.
    pub fn report(&self, catalog: &str) -> (lines: Vec<String>)
        ensures
            line_views(lines@) == report_lines(self@, catalog@),
    {
        let mut lines: Vec<String> = Vec::new();
        match self {
            Discrepancy::Missing { name } => {
                lines.push(name.clone());
                let mut text = "not present in ".to_owned();
                text.append(catalog);
                lines.push(text);
                assert(line_views(lines@) =~= report_lines(self@, catalog@));
            },
            Discrepancy::Differs { name, mismatches } => {
                lines.push(name.clone());
                let mut i: usize = 0;
                while i < mismatches.len()
                    invariant
                        i <= mismatches.len(),
                        line_views(lines@) == seq![name@] + mismatch_views(mismatches@).subrange(
                            0,
                            i as int,
                        ).map_values(|mismatch: MismatchView| mismatch_line(mismatch)),
                    decreases mismatches.len() - i,
                {
                    let line = mismatches[i].line();
                    let ghost shown = line_views(lines@);
                    lines.push(line);
                    i = i + 1;
                    proof {
                        let read = mismatch_views(mismatches@).subrange(0, i as int);
                        assert(read.drop_last() =~= mismatch_views(mismatches@).subrange(0, i - 1));
                        assert(line_views(lines@) =~= shown.push(mismatch_line(read.last())));
                        assert(line_views(lines@) =~= seq![name@] + read.map_values(
                            |mismatch: MismatchView| mismatch_line(mismatch),
                        ));
                    }
                }
                assert(mismatch_views(mismatches@).subrange(0, mismatches.len() as int) =~= mismatch_views(
                    mismatches@,
                ));
            },
        }
        lines
    }
}

} // verus!
