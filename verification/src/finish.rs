//! The end: what is written when all documents are in.

use crate::columns::ordered;
use crate::files::FlatFiles;
use vstd::prelude::*;

verus! {

/// A step of writing the output.
#[derive(Debug, PartialEq, Eq, Structural, Clone, Copy)]
pub enum WriteStep {
    /// The records that still wait are written to their files.
    FlushRecords,
    Csvs,
    Postgresql,
    Sqlite,
    Xlsx,
    /// The files that took the records as they came are removed.
    RemoveTmp,
    DataPackage,
    FieldsCsv,
}

/// The steps of writing the output, in their order.
pub open spec fn write_steps(csv: bool, xlsx: bool) -> Seq<WriteStep> {
    let csvs = if csv {
        seq![WriteStep::Csvs, WriteStep::Postgresql, WriteStep::Sqlite]
    } else {
        Seq::empty()
    };
    let sheets = if xlsx {
        seq![WriteStep::Xlsx]
    } else {
        Seq::empty()
    };
    seq![WriteStep::FlushRecords] + csvs + sheets + seq![
        WriteStep::RemoveTmp,
        WriteStep::DataPackage,
        WriteStep::FieldsCsv,
    ]
}

impl FlatFiles {
    /// Marks what is left out, orders the columns, and tells the steps of writing the output.
    pub fn write_files(&mut self) -> (steps: Vec<WriteStep>)
        requires
            old(self).wf(),
        ensures
            *final(self) == (FlatFiles {
                table_metadata: final(self).table_metadata,
                ..*old(self)
            }),
            final(self).tables().len() == old(self).tables().len(),
            forall|i: int|
                0 <= i < old(self).tables().len() ==> {
                    &&& (#[trigger] final(self).tables()[i]).0 == old(self).tables()[i].0
                    &&& ordered(
                        old(self).order_map.view(),
                        old(self).marked_tables()[i].1,
                        final(self).tables()[i].1,
                    )
                },
            final(self).wf(),
            steps@ == write_steps(old(self).csv, old(self).xlsx),
    {
        self.mark_ignore();
        self.determine_order();
        let mut steps: Vec<WriteStep> = Vec::new();
        steps.push(WriteStep::FlushRecords);
        if self.csv {
            steps.push(WriteStep::Csvs);
            steps.push(WriteStep::Postgresql);
            steps.push(WriteStep::Sqlite);
        }
        if self.xlsx {
            steps.push(WriteStep::Xlsx);
        }
        steps.push(WriteStep::RemoveTmp);
        steps.push(WriteStep::DataPackage);
        steps.push(WriteStep::FieldsCsv);
        assert(steps@ =~= write_steps(self.csv, self.xlsx));
        steps
    }
}

} // verus!
