//! The layout of a picture of a page-table tree: which lines to draw for each entry of a
//! read-only walk.

use vstd::prelude::*;

use crate::mapper::{entry_bit, entry_present, NavigateCtx};
use crate::paging::PageTableEntry;

verus! {

/// A line of the picture. `skip[d]` tells whether the branch of depth `d` has ended, so that
/// its vertical bar is left out.
#[derive(Clone, Copy, PartialEq, Eq, Debug)]
pub enum TreeLine {
    /// A single entry was missing: a bar under the indentation.
    Gap { depth: u8, skip: [bool; 4] },
    /// The entries `start` to `end` were missing.
    Skipped { depth: u8, skip: [bool; 4], start: u16, end: u16 },
    /// A present entry, with its index; `last` when no present entry follows it in its table.
    Entry { depth: u8, skip: [bool; 4], last: bool, index: u16, entry: PageTableEntry },
}

/// The state of the picture between entries.
pub struct MemoryMapTreeDisplay {
    skip_list: [bool; 4],
    skips: u16,
    prev_depth: u8,
    max_depth: u8,
}

impl MemoryMapTreeDisplay {
    pub closed spec fn skip_spec(&self) -> Seq<bool> {
        self.skip_list@
    }

    /// The ended branches, as the lines carry them.
    pub closed spec fn skip_array(&self) -> [bool; 4] {
        self.skip_list
    }

    /// The view of the ended branches is that of the array the lines carry.
    pub proof fn lemma_skip_array(&self)
        ensures
            self.skip_array()@ == self.skip_spec(),
    {
    }

    pub closed spec fn skips_spec(&self) -> u16 {
        self.skips
    }

    pub closed spec fn prev_depth_spec(&self) -> u8 {
        self.prev_depth
    }

    pub closed spec fn max_depth_spec(&self) -> u8 {
        self.max_depth
    }

    /// A picture of the tree down to depth `max_depth` (at most 3).
    pub fn new(max_depth: u8) -> (r: Self)
        requires
            max_depth <= 3,
        ensures
            r.skip_spec() == seq![false, false, false, false],
            r.skips_spec() == 0,
            r.prev_depth_spec() == 0,
            r.max_depth_spec() == max_depth,
    {
        let r = MemoryMapTreeDisplay { skip_list: [false; 4], skips: 0, prev_depth: 0, max_depth };
        proof {
            assert(r.skip_list@ =~= seq![false, false, false, false]);
        }
        r
    }

    /// The number of missing entries counted since the last line.
    pub fn skips(&self) -> (r: u16)
        ensures
            r == self.skips_spec(),
    {
        self.skips
    }

    /// The depth the picture goes down to.
    pub fn max_depth(&self) -> (r: u8)
        ensures
            r == self.max_depth_spec(),
    {
        self.max_depth
    }

    /// The lines for the entry described by `ctx`.
    ///
    /// A change of depth starts a new count of missing entries, and going back up reopens
    /// the branch of that depth. The last present entry of a table closes its branch. A missing
    /// entry draws nothing and is counted; a present one draws the missing entries before it
    /// (a bar for one, a range for more) and then itself.
    pub fn print_entry(&mut self, ctx: NavigateCtx) -> (r: Vec<TreeLine>)
        requires
            ctx.depth < 4,
            old(self).skips_spec() < u16::MAX,
        ensures
            final(self).max_depth_spec() == old(self).max_depth_spec(),
            final(self).prev_depth_spec() == ctx.depth,
            ({
                let reset = old(self).prev_depth_spec() != ctx.depth;
                let skips = if reset { 0 } else { old(self).skips_spec() as int };
                let opened = if reset && ctx.depth < old(self).prev_depth_spec() {
                    old(self).skip_spec().update(ctx.depth as int, false)
                } else {
                    old(self).skip_spec()
                };
                let skip = if ctx.is_last_present_entry {
                    opened.update(ctx.depth as int, true)
                } else {
                    opened
                };
                &&& final(self).skip_spec() == skip
                &&& if !entry_bit(ctx.entry, 0) {
                    &&& r@ == Seq::<TreeLine>::empty()
                    &&& final(self).skips_spec() == skips + 1
                } else {
                    let entry_line = TreeLine::Entry {
                        depth: ctx.depth,
                        skip: final(self).skip_array(),
                        last: ctx.is_last_present_entry,
                        index: ctx.entry_index,
                        entry: ctx.entry,
                    };
                    &&& final(self).skips_spec() == 0
                    &&& skips == 0 ==> r@ == seq![entry_line]
                    &&& skips == 1 ==> r@ == seq![TreeLine::Gap { depth: ctx.depth, skip: final(self).skip_array() }, entry_line]
                    &&& skips > 1 ==> r@ == seq![
                        TreeLine::Skipped {
                            depth: ctx.depth,
                            skip: final(self).skip_array(),
                            start: (if ctx.entry_index >= skips { ctx.entry_index - skips } else { 0 }) as u16,
                            end: (if ctx.entry_index >= 1 { ctx.entry_index - 1 } else { 0 }) as u16,
                        },
                        entry_line,
                    ]
                }
            }),
    {
        let d: usize = ctx.depth as usize;
        if self.prev_depth != ctx.depth {
            if ctx.depth < self.prev_depth {
                self.skip_list[d] = false;
            }
            self.prev_depth = ctx.depth;
            self.skips = 0;
        }
        if ctx.is_last_present_entry {
            self.skip_list[d] = true;
        }
        let mut lines: Vec<TreeLine> = Vec::new();
        if !entry_present(&ctx.entry) {
            self.skips = self.skips + 1;
            return lines;
        }
        if self.skips == 1 {
            lines.push(TreeLine::Gap { depth: ctx.depth, skip: self.skip_list });
        } else if self.skips > 0 {
            lines.push(
                TreeLine::Skipped {
                    depth: ctx.depth,
                    skip: self.skip_list,
                    start: ctx.entry_index.saturating_sub(self.skips),
                    end: ctx.entry_index.saturating_sub(1),
                },
            );
        }
        lines.push(
            TreeLine::Entry {
                depth: ctx.depth,
                skip: self.skip_list,
                last: ctx.is_last_present_entry,
                index: ctx.entry_index,
                entry: ctx.entry,
            },
        );
        self.skips = 0;
        lines
    }
}

} // verus!
