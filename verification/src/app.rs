//! Application state: the loaded entries plus the filter, selection and
//! scroll window over them.

use std::collections::HashSet;
use std::path::PathBuf;

use vstd::prelude::*;

use crate::history::{
    lemma_delete_keeps_bytes, lemma_rewrite_reads_back, models, raw_bytes, retained, stored_bytes,
    stored_entries, survivors_stay_apart, HistoryEntry,
};
use crate::strings::{has_substring, lowercase, str_contains, to_lowercase};
use crate::text::{self, at_least_one, lemma_wrap, sanitized, wrap};

verus! {

broadcast use vstd::std_specs::hash::group_hash_axioms;

/// The path of the history file, carried through unread.
#[verifier::external_type_specification]
#[verifier::external_body]
pub struct ExPathBuf(PathBuf);

/// Columns the selection marker occupies, including its trailing space.
pub const MARKER_WIDTH: usize = 4;
/// Columns between the entry index and the command text.
pub const GAP_WIDTH: usize = 2;
/// Minimum width of the entry index column.
pub const MIN_INDEX_WIDTH: usize = 5;

#[derive(Clone, Copy, PartialEq, Eq, Structural, Debug)]
pub enum Mode {
    /// Navigating the list; selection and delete keys are live.
    Normal,
    /// Extending a range selection from the anchor to the cursor.
    Range,
    /// Typing the text search.
    FilterText,
    /// Typing the minimum command length.
    FilterMinLen,
    /// Typing the maximum command length.
    FilterMaxLen,
}

pub struct App {
    /// All loaded entries. Shrinks on delete; indices are positions here.
    pub entries: Vec<HistoryEntry>,
    /// Indices into `entries` matching the current filters, in view order:
    /// file order, or newest first when `newest_first` is set.
    pub filtered: Vec<usize>,
    /// Indices into `entries` selected for deletion.
    pub selected: HashSet<usize>,
    /// Case-insensitive substring match; empty means match all.
    pub text_filter: String,
    /// Minimum command length in characters; `None` means no lower bound.
    pub min_length: Option<usize>,
    /// Maximum command length in characters; `None` means no upper bound.
    pub max_length: Option<usize>,
    /// Position within `filtered` holding the cursor.
    pub cursor: usize,
    /// Position within `filtered` of the entry the window starts at.
    pub top: usize,
    /// Wrapped rows of `filtered[top]` scrolled past, so tall entries can be
    /// partly scrolled through without a cursor position per row.
    pub skip: usize,
    /// Rows the list area can display.
    pub viewport: usize,
    /// Columns the list area has; the command text wraps to the rest.
    pub list_width: usize,
    pub mode: Mode,
    /// Whether the view lists the newest entries first.
    pub newest_first: bool,
    /// Position within `filtered` where the range selection started.
    pub range_anchor: usize,
    /// The selection as it was when the range selection started.
    pub range_base: HashSet<usize>,
    /// Entries removed from the file so far.
    pub deleted: usize,
    pub history_path: PathBuf,
    /// Write failure shown in the status bar for one frame.
    pub error_msg: Option<String>,
}

/// Number of decimal digits of `n`.
pub open spec fn decimal_len(n: nat) -> nat
    decreases n,
{
    if n < 10 {
        1
    } else {
        1 + decimal_len(n / 10)
    }
}

pub open spec fn pow10(k: nat) -> nat
    decreases k,
{
    if k == 0 {
        1
    } else {
        10 * pow10((k - 1) as nat)
    }
}

proof fn lemma_decimal_len_bound(n: nat, k: nat)
    requires
        k >= 1,
        n < pow10(k),
    ensures
        decimal_len(n) <= k,
    decreases k,
{
    if n >= 10 {
        if k == 1 {
            assert(pow10(1) == 10) by {
                reveal_with_fuel(pow10, 2);
            }
        } else {
            lemma_decimal_len_bound(n / 10, (k - 1) as nat);
        }
    }
}

pub(crate) proof fn lemma_usize_digits(n: usize)
    ensures
        decimal_len(n as nat) <= 20,
{
    assert(pow10(20) == 100000000000000000000) by {
        reveal_with_fuel(pow10, 21);
    }
    lemma_decimal_len_bound(n as nat, 20);
}

/// Whether a command, `lowered` once lowercased and `length` characters
/// long, passes the filters: it holds the lowercased `needle` unless that is
/// empty, and its length is within the bounds that are set.
pub open spec fn filter_passes(
    lowered: Seq<char>,
    length: nat,
    needle: Seq<char>,
    min: Option<usize>,
    max: Option<usize>,
) -> bool {
    &&& (needle.len() == 0 || has_substring(lowered, needle))
    &&& (min matches Some(m) ==> length >= m)
    &&& (max matches Some(m) ==> length <= m)
}

/// Whether an entry passes the text and length filters.
pub open spec fn entry_matches(
    entry: HistoryEntry,
    needle: Seq<char>,
    min: Option<usize>,
    max: Option<usize>,
) -> bool {
    filter_passes(lowercase(entry.command@), entry.command@.len(), needle, min, max)
}

/// Whether a command, `lowered` once lowercased and `length` characters
/// long, passes the filters for the lowercased `needle` and the bounds.
pub fn passes_filters(lowered: &str, length: usize, needle: &str, min: Option<usize>, max: Option<usize>) -> (r:
    bool)
    ensures
        r == filter_passes(lowered@, length as nat, needle@, min, max),
{
    let text_ok = needle.unicode_len() == 0 || str_contains(lowered, needle);
    let min_ok = match min {
        Some(m) => length >= m,
        None => true,
    };
    let max_ok = match max {
        Some(m) => length <= m,
        None => true,
    };
    text_ok && min_ok && max_ok
}

/// Indices below `n` of the entries passing the filters, in file order.
pub open spec fn matching(
    entries: Seq<HistoryEntry>,
    needle: Seq<char>,
    min: Option<usize>,
    max: Option<usize>,
    n: int,
) -> Seq<usize>
    decreases n,
{
    if n <= 0 {
        Seq::empty()
    } else if entry_matches(entries[n - 1], needle, min, max) {
        matching(entries, needle, min, max, n - 1).push((n - 1) as usize)
    } else {
        matching(entries, needle, min, max, n - 1)
    }
}

pub open spec fn min_nat(a: int, b: int) -> int {
    if a <= b {
        a
    } else {
        b
    }
}

impl App {
    /// Every position of the view names a loaded entry.
    pub open spec fn wf(&self) -> bool {
        forall|k: int| 0 <= k < self.filtered@.len() ==> #[trigger] self.filtered@[k] < self.entries@.len()
    }

    /// The entries passing the current filters, in view order.
    pub open spec fn view_order(&self) -> Seq<usize> {
        let found = matching(
            self.entries@,
            lowercase(self.text_filter@),
            self.min_length,
            self.max_length,
            self.entries@.len() as int,
        );
        if self.newest_first {
            found.reverse()
        } else {
            found
        }
    }

    pub open spec fn spec_index_width(&self) -> nat {
        let digits = decimal_len(if self.entries@.len() == 0 { 0 } else { (self.entries@.len() - 1) as nat });
        if digits < MIN_INDEX_WIDTH { MIN_INDEX_WIDTH as nat } else { digits }
    }

    pub open spec fn spec_prefix_width(&self) -> nat {
        (MARKER_WIDTH + self.spec_index_width() + GAP_WIDTH) as nat
    }

    pub open spec fn spec_text_width(&self) -> nat {
        if self.list_width <= self.spec_prefix_width() + 1 {
            1
        } else {
            (self.list_width - self.spec_prefix_width()) as nat
        }
    }

    /// Rows the entry at view position `position` occupies.
    pub open spec fn height_at(&self, position: int) -> int {
        if 0 <= position < self.filtered@.len() {
            wrap(
                sanitized(self.entries@[self.filtered@[position] as int].command@),
                self.spec_text_width(),
            ).len() as int
        } else {
            0
        }
    }

    /// Rows of the window taken by the entries from `top` through `last`, the
    /// window starting `skip` rows into `top` (at most all but its last row).
    pub open spec fn rows_through(&self, top: int, skip: int, last: int) -> int
        decreases last - top,
    {
        if last < top {
            0
        } else if last == top {
            self.height_at(top) - min_nat(skip, self.height_at(top) - 1)
        } else {
            self.rows_through(top, skip, last - 1) + self.height_at(last)
        }
    }

    pub open spec fn window_height(&self) -> int {
        if self.viewport == 0 { 1 } else { self.viewport as int }
    }

    /// The window this state shows is the one `ensure_visible` settles on
    /// from cursor `cursor`, anchor `top` and `skip`: the cursor clamped into
    /// the view; then the window anchored at the cursor when the cursor was
    /// above the window, or when the cursor entry is taller than the window;
    /// otherwise the window unchanged when the cursor entry ends inside it,
    /// and else scrolled down just far enough that the cursor entry ends on
    /// the window's last row, which is the least scrolling that shows it.
    pub open spec fn window_settled_from(&self, cursor: int, top: int, skip: int) -> bool {
        let len = self.filtered@.len() as int;
        if len == 0 {
            self.top == 0 && self.skip == 0 && self.cursor == cursor
        } else {
            let c = min_nat(cursor, len - 1);
            let t = if top > c { c } else { top };
            let s = if top > c { 0 } else { skip };
            let h = self.window_height();
            &&& self.cursor == c
            &&& if self.height_at(c) > h {
                self.top == c && self.skip == 0
            } else if self.rows_through(t, s, c) <= h {
                self.top == t && self.skip == s
            } else {
                &&& self.top <= c
                &&& self.skip < self.height_at(self.top as int)
                &&& self.rows_through(self.top as int, self.skip as int, c) == h
            }
        }
    }

    /// Only the cursor and the window differ between `self` and `other`.
    pub open spec fn same_but_window(&self, other: &App) -> bool {
        &&& self.filtered == other.filtered
        &&& self.same_but_view(other)
    }

    /// The filters, the window size, the order and the bookkeeping agree.
    pub open spec fn same_settings(&self, other: &App) -> bool {
        &&& self.text_filter == other.text_filter
        &&& self.min_length == other.min_length
        &&& self.max_length == other.max_length
        &&& self.viewport == other.viewport
        &&& self.list_width == other.list_width
        &&& self.newest_first == other.newest_first
        &&& self.deleted == other.deleted
        &&& self.history_path == other.history_path
        &&& self.error_msg == other.error_msg
    }

    /// The view, the cursor and the window agree.
    pub open spec fn same_view(&self, other: &App) -> bool {
        &&& self.entries == other.entries
        &&& self.filtered == other.filtered
        &&& self.cursor == other.cursor
        &&& self.top == other.top
        &&& self.skip == other.skip
    }

    /// Only the selection differs between `self` and `other`.
    pub open spec fn same_but_selection(&self, other: &App) -> bool {
        &&& self.same_view(other)
        &&& self.same_settings(other)
        &&& self.mode == other.mode
        &&& self.range_anchor == other.range_anchor
        &&& self.range_base == other.range_base
    }

    /// The selection toggled for the entry under the cursor.
    pub open spec fn selection_toggled(&self, old: &App) -> bool {
        &&& self.same_but_selection(old)
        &&& self.selected@ == (if old.cursor < old.filtered@.len() {
            let index = old.filtered@[old.cursor as int];
            if old.selected@.contains(index) {
                old.selected@.remove(index)
            } else {
                old.selected@.insert(index)
            }
        } else {
            old.selected@
        })
    }

    /// Every entry of the view selected, or, when all of them already were,
    /// all of them unselected; the rest of the selection kept.
    pub open spec fn select_all_toggled(&self, old: &App) -> bool {
        &&& self.same_but_selection(old)
        &&& self.selected@ == (if old.filtered@.to_set().subset_of(old.selected@) {
            old.selected@.difference(old.filtered@.to_set())
        } else {
            old.selected@.union(old.filtered@.to_set())
        })
    }

    /// A range selection started at the cursor, remembering the selection it
    /// started from; nothing happens on an empty view.
    pub open spec fn range_begun(&self, old: &App) -> bool {
        if old.filtered@.len() == 0 {
            *self == *old
        } else {
            &&& self.same_view(old)
            &&& self.same_settings(old)
            &&& self.mode == Mode::Range
            &&& self.range_anchor == old.cursor
            &&& self.range_base@ == old.selected@
            &&& self.selected@ == self.range_selection()
        }
    }

    /// Back to normal mode with the selection as it is.
    pub open spec fn range_finished(&self, old: &App) -> bool {
        &&& self.same_view(old)
        &&& self.same_settings(old)
        &&& self.mode == Mode::Normal
        &&& self.selected == old.selected
        &&& self.range_anchor == old.range_anchor
        &&& self.range_base == old.range_base
    }

    /// Back to normal mode with the selection from before the range.
    pub open spec fn range_cancelled(&self, old: &App) -> bool {
        &&& self.same_view(old)
        &&& self.same_settings(old)
        &&& self.mode == Mode::Normal
        &&& self.selected@ == old.range_base@
        &&& self.range_anchor == old.range_anchor
        &&& self.range_base == old.range_base
    }

    /// The view recomputed from the filters of `self`, with the cursor and
    /// window refitted; nothing else changed.
    pub open spec fn filters_applied(&self, old: &App) -> bool {
        &&& self.same_but_view(old)
        &&& self.filtered@ == old.view_order()
        &&& self.wf()
        &&& self.refitted_from(old.cursor as int, old.top as int, old.skip as int)
    }

    /// `targets` dropped from the entries, keeping the others in order; the
    /// selection cleared, a range selection ended, and the view recomputed.
    pub open spec fn removed_from(&self, old: &App, targets: Set<usize>) -> bool {
        &&& self.entries@ == retained(old.entries@, targets, old.entries@.len() as int)
        &&& self.selected@ == Set::<usize>::empty()
        &&& self.range_base@ == Set::<usize>::empty()
        &&& self.range_anchor == old.range_anchor
        &&& self.mode == (if old.mode == Mode::Range { Mode::Normal } else { old.mode })
        &&& self.same_settings(old)
        &&& self.filtered@ == self.view_order()
        &&& self.wf()
        &&& self.refitted_from(old.cursor as int, old.top as int, old.skip as int)
    }

    /// The view order flipped with the cursor on the same entry and the
    /// window settled on it.
    pub open spec fn order_toggled(&self, old: &App) -> bool {
        let len = old.filtered@.len() as int;
        &&& self.newest_first == !old.newest_first
        &&& self.filtered@ == old.filtered@.reverse()
        &&& self.entries == old.entries
        &&& self.selected == old.selected
        &&& self.mode == old.mode
        &&& self.range_base == old.range_base
        &&& self.text_filter == old.text_filter
        &&& self.min_length == old.min_length
        &&& self.max_length == old.max_length
        &&& self.viewport == old.viewport
        &&& self.list_width == old.list_width
        &&& self.deleted == old.deleted
        &&& self.history_path == old.history_path
        &&& self.error_msg == old.error_msg
        &&& self.range_anchor == (if old.range_anchor < len { len - 1 - old.range_anchor } else { old.range_anchor as int })
        &&& if len == 0 {
            self.cursor == old.cursor && self.top == old.top && self.skip == old.skip
        } else {
            self.window_settled_from(
                if old.cursor < len { len - 1 - old.cursor } else { old.cursor as int },
                old.top as int,
                old.skip as int,
            )
        }
        &&& old.cursor < len ==> self.cursor_entry_spec() == old.cursor_entry_spec()
    }

    /// Only the view (its entries, cursor and window) differs between `self`
    /// and `other`.
    pub open spec fn same_but_view(&self, other: &App) -> bool {
        &&& self.entries == other.entries
        &&& self.selected == other.selected
        &&& self.text_filter == other.text_filter
        &&& self.min_length == other.min_length
        &&& self.max_length == other.max_length
        &&& self.viewport == other.viewport
        &&& self.list_width == other.list_width
        &&& self.mode == other.mode
        &&& self.newest_first == other.newest_first
        &&& self.range_anchor == other.range_anchor
        &&& self.range_base == other.range_base
        &&& self.deleted == other.deleted
        &&& self.history_path == other.history_path
        &&& self.error_msg == other.error_msg
    }

    pub proof fn lemma_height_positive(&self, position: int)
        requires
            0 <= position < self.filtered@.len(),
        ensures
            self.height_at(position) >= 1,
    {
        lemma_wrap(
            sanitized(self.entries@[self.filtered@[position] as int].command@),
            self.spec_text_width(),
        );
    }

    /// Width of the entry index column for the current number of entries.
    pub fn index_width(&self) -> (r: usize)
        ensures
            r == self.spec_index_width(),
            r <= 20,
    {
        let n = self.entries.len().saturating_sub(1);
        proof {
            lemma_usize_digits(n);
        }
        let mut digits: usize = 1;
        let mut rest = n;
        while rest >= 10
            invariant
                digits + decimal_len(rest as nat) == decimal_len(n as nat) + 1,
                decimal_len(n as nat) <= 20,
            decreases rest,
        {
            rest = rest / 10;
            digits = digits + 1;
        }
        if digits < MIN_INDEX_WIDTH {
            MIN_INDEX_WIDTH
        } else {
            digits
        }
    }

    /// Columns of a list row before the command text starts.
    pub fn prefix_width(&self) -> (r: usize)
        ensures
            r == self.spec_prefix_width(),
    {
        MARKER_WIDTH + self.index_width() + GAP_WIDTH
    }

    /// Columns available for command text, which is what wrapping is computed
    /// against.
    pub fn text_width(&self) -> (r: usize)
        ensures
            r == self.spec_text_width(),
            r >= 1,
    {
        let rest = self.list_width.saturating_sub(self.prefix_width());
        if rest < 1 {
            1
        } else {
            rest
        }
    }

    /// Rows `filtered[position]` occupies when wrapped; none past the view.
    pub fn entry_height(&self, position: usize) -> (r: usize)
        requires
            self.wf(),
        ensures
            r == self.height_at(position as int),
    {
        if position < self.filtered.len() {
            let index = self.filtered[position];
            let width = self.text_width();
            text::height(self.entries[index].command.as_str(), width)
        } else {
            0
        }
    }

    /// The window after the view changed: the cursor and the anchor back at
    /// the start for an empty view, and otherwise both clamped into the view
    /// and the window settled as `ensure_visible` does.
    pub open spec fn refitted_from(&self, cursor: int, top: int, skip: int) -> bool {
        let len = self.filtered@.len() as int;
        if len == 0 {
            self.cursor == 0 && self.top == 0 && self.skip == 0
        } else {
            self.window_settled_from(min_nat(cursor, len - 1), min_nat(top, len - 1), skip)
        }
    }

    pub proof fn lemma_same_rows(&self, other: &App, top: int, skip: int, last: int)
        requires
            self.entries == other.entries,
            self.filtered == other.filtered,
            self.list_width == other.list_width,
        ensures
            self.rows_through(top, skip, last) == other.rows_through(top, skip, last),
        decreases last - top,
    {
        if last > top {
            self.lemma_same_rows(other, top, skip, last - 1);
        }
    }

    pub proof fn lemma_same_settled(&self, other: &App, cursor: int, top: int, skip: int)
        requires
            self.entries == other.entries,
            self.filtered == other.filtered,
            self.list_width == other.list_width,
            self.viewport == other.viewport,
            self.cursor == other.cursor,
            self.top == other.top,
            self.skip == other.skip,
        ensures
            self.window_settled_from(cursor, top, skip) == other.window_settled_from(cursor, top, skip),
    {
        let len = self.filtered@.len() as int;
        let c = min_nat(cursor, len - 1);
        let t = if top > c { c } else { top };
        let s = if top > c { 0 } else { skip };
        self.lemma_same_rows(other, t, s, c);
        self.lemma_same_rows(other, self.top as int, self.skip as int, c);
    }

    /// Rows the view's entries before position `n` occupy together.
    pub open spec fn rows_before(&self, n: int) -> int
        decreases n,
    {
        if n <= 0 {
            0
        } else {
            self.rows_before(n - 1) + self.height_at(n - 1)
        }
    }

    /// Rows of the view above a window that starts `skip` rows into the
    /// entry at `top`.
    pub open spec fn rows_hidden(&self, top: int, skip: int) -> int {
        self.rows_before(top) + skip
    }

    pub proof fn lemma_rows_before_monotone(&self, a: int, b: int)
        requires
            0 <= a <= b,
        ensures
            self.rows_before(a) <= self.rows_before(b),
            a < b && a < self.filtered@.len() ==> self.rows_before(a) + self.height_at(a) <= self.rows_before(
                b,
            ),
        decreases b - a,
    {
        if a < b {
            self.lemma_rows_before_monotone(a, b - 1);
            if a < self.filtered@.len() {
                self.lemma_height_positive(a);
            }
        }
    }

    /// The window rows of `top` through `last`, counted by what lies before.
    pub proof fn lemma_rows_through_before(&self, top: int, skip: int, last: int)
        requires
            0 <= top <= last < self.filtered@.len(),
        ensures
            self.rows_through(top, skip, last) == self.rows_before(last + 1) - self.rows_before(top)
                - min_nat(skip, self.height_at(top) - 1),
        decreases last - top,
    {
        if last > top {
            self.lemma_rows_through_before(top, skip, last - 1);
        }
    }

    /// Scrolls the minimum amount needed to keep the cursor on screen.
    ///
    /// Walks rows from the window anchor instead of counting entries, because an
    /// entry can occupy many rows. The walk stops as soon as the window is full,
    /// so it never costs more than a viewport's worth of wrapped entries.
    pub fn ensure_visible(&mut self)
        requires
            old(self).wf(),
        ensures
            final(self).same_but_window(old(self)),
            final(self).window_settled_from(
                old(self).cursor as int,
                old(self).top as int,
                old(self).skip as int,
            ),
            final(self).wf(),
    {
        let ghost pre = *old(self);
        if self.filtered.len() == 0 {
            self.top = 0;
            self.skip = 0;
            return;
        }
        let height = if self.viewport < 1 { 1 } else { self.viewport };
        if self.cursor > self.filtered.len() - 1 {
            self.cursor = self.filtered.len() - 1;
        }
        if self.top > self.cursor {
            self.top = self.cursor;
            self.skip = 0;
        }
        let ghost c = self.cursor as int;
        let ghost t = self.top as int;
        let ghost s = self.skip as int;
        proof {
            self.lemma_height_positive(c);
        }
        let cursor_rows = self.entry_height(self.cursor);
        if cursor_rows > height {
            // Taller than the window: show its first rows so the command's
            // opening words, which identify it, stay visible.
            self.top = self.cursor;
            self.skip = 0;
            return;
        }

        // Rows of the window consumed before the entry at `position` begins.
        let mut used: usize = 0;
        let mut position = self.top;
        loop
            invariant
                self.same_but_window(&pre),
                pre == *old(self),
                pre.wf(),
                self.cursor as int == c,
                self.top as int == t,
                self.skip as int == s,
                c == min_nat(pre.cursor as int, pre.filtered@.len() - 1),
                t == (if pre.top > c { c } else { pre.top as int }),
                s == (if pre.top > c { 0 } else { pre.skip as int }),
                height as int == self.window_height(),
                cursor_rows == self.height_at(c),
                cursor_rows <= height,
                t <= position <= c < self.filtered@.len(),
                used == self.rows_through(t, s, position - 1),
                used < height,
            decreases c - position,
        {
            proof {
                self.lemma_height_positive(position as int);
            }
            let rows = self.entry_height(position);
            let skipped = if position == self.top {
                if self.skip < rows - 1 {
                    self.skip
                } else {
                    rows - 1
                }
            } else {
                0
            };
            assert(used + rows - skipped == self.rows_through(t, s, position as int));

            if position == self.cursor {
                if rows - skipped > height - used {
                    // The cursor entry runs past the bottom: scroll down just
                    // enough for its last row to be the window's last.
                    proof {
                        self.lemma_height_positive(t);
                    }
                    let ghost before = *self;
                    let top_rows = self.entry_height(self.top);
                    if self.skip > top_rows - 1 {
                        self.skip = top_rows - 1;
                    }
                    let ghost mid = *self;
                    let ghost target = self.rows_before(c + 1) - height;
                    assert(self.skip == min_nat(s, self.height_at(t) - 1));
                    proof {
                        before.lemma_same_rows(self, t, s, c);
                    }
                    assert(used + rows - skipped == self.rows_through(t, s, c));
                    proof {
                        self.lemma_rows_through_before(t, s, c);
                        self.lemma_rows_through_before(t, self.skip as int, c);
                        self.lemma_rows_before_monotone(c + 1, self.filtered@.len() as int);
                        assert(self.rows_hidden(t, self.skip as int) + ((rows - skipped) - (height - used))
                            == target);
                    }
                    self.scroll_down((rows - skipped) - (height - used));
                    proof {
                        mid.lemma_same_rows_before(self, c + 1);
                        mid.lemma_same_rows_before(self, self.filtered@.len() as int);
                        mid.lemma_same_rows_before(self, self.top as int);
                        assert(self.rows_hidden(self.top as int, self.skip as int) == target);
                        if self.top > c {
                            self.lemma_rows_before_monotone(c + 1, self.top as int);
                            assert(false);
                        }
                        self.lemma_rows_through_before(self.top as int, self.skip as int, c);
                        mid.lemma_same_rows(self, t, s, c);
                    }
                }
                return;
            }

            if rows - skipped >= height - used {
                // The window fills up before the cursor entry: settle it with
                // the cursor entry on the bottom rows.
                proof {
                    self.lemma_rows_through_before(t, s, position as int);
                    self.lemma_rows_before_monotone(position + 1, c + 1);
                    self.lemma_rows_before_monotone(0, t);
                    self.lemma_rows_through_before(t, s, c);
                    self.lemma_height_positive(t);
                }
                let ghost mid = *self;
                self.settle_at_bottom(height);
                proof {
                    mid.lemma_same_rows(self, t, s, c);
                }
                return;
            }
            used = used + (rows - skipped);
            position = position + 1;
        }
    }

    /// Places the window so that the cursor entry ends on its last row, by
    /// walking up from the cursor entry until `height` rows are filled.
    fn settle_at_bottom(&mut self, height: usize)
        requires
            old(self).wf(),
            old(self).cursor < old(self).filtered@.len(),
            1 <= old(self).height_at(old(self).cursor as int) <= height,
            old(self).rows_before(old(self).cursor + 1) >= height,
        ensures
            final(self).same_but_window(old(self)),
            final(self).cursor == old(self).cursor,
            final(self).top <= final(self).cursor,
            final(self).skip < final(self).height_at(final(self).top as int),
            final(self).rows_through(final(self).top as int, final(self).skip as int, final(self).cursor as int)
                == height,
    {
        let ghost pre = *old(self);
        let ghost c = self.cursor as int;
        // Rows still to fill above the rows counted so far.
        let mut need: usize = height - self.entry_height(self.cursor);
        let mut p: usize = self.cursor;
        while need > 0
            invariant
                self == old(self),
                pre == *old(self),
                pre.wf(),
                c == self.cursor,
                c < self.filtered@.len(),
                p <= c,
                need <= height,
                self.rows_before(c + 1) >= height,
                self.rows_before(c + 1) - self.rows_before(p as int) == height - need,
            decreases p,
        {
            assert(p > 0);
            proof {
                self.lemma_height_positive(p - 1);
            }
            let above = self.entry_height(p - 1);
            if above >= need {
                self.top = p - 1;
                self.skip = above - need;
                proof {
                    pre.lemma_rows_before_monotone(p as int, c);
                    pre.lemma_rows_through_before(p - 1, (above - need) as int, c);
                    self.lemma_same_rows(&pre, p - 1, (above - need) as int, c);
                }
                return;
            }
            need = need - above;
            p = p - 1;
        }
        self.top = p;
        self.skip = 0;
        proof {
            pre.lemma_height_positive(p as int);
            pre.lemma_rows_through_before(p as int, 0, c);
            self.lemma_same_rows(&pre, p as int, 0, c);
        }
    }

    /// Moves the window anchor `rows` rows further down the list, stopping
    /// at the last entry.
    fn scroll_down(&mut self, rows: usize)
        requires
            old(self).wf(),
            old(self).top < old(self).filtered@.len(),
            old(self).skip < old(self).height_at(old(self).top as int),
        ensures
            final(self).same_but_window(old(self)),
            final(self).cursor == old(self).cursor,
            old(self).top <= final(self).top < final(self).filtered@.len(),
            final(self).skip < final(self).height_at(final(self).top as int),
            final(self).rows_hidden(final(self).top as int, final(self).skip as int) == old(self).rows_hidden(
                old(self).top as int,
                old(self).skip as int,
            ) + rows || {
                &&& final(self).top == final(self).filtered@.len() - 1
                &&& final(self).skip == (if old(self).top == final(self).top { old(self).skip } else { 0 })
                &&& old(self).rows_hidden(old(self).top as int, old(self).skip as int) + rows
                    >= old(self).rows_before(old(self).filtered@.len() as int)
            },
    {
        let ghost pre = *old(self);
        let ghost target = pre.rows_hidden(pre.top as int, pre.skip as int) + rows;
        let mut remaining = rows;
        while remaining > 0
            invariant
                self.same_but_window(&pre),
                pre == *old(self),
                pre.wf(),
                self.cursor == pre.cursor,
                pre.top <= self.top < self.filtered@.len(),
                self.skip < pre.height_at(self.top as int),
                self.skip == (if self.top == pre.top { pre.skip } else { 0 }),
                target == pre.rows_hidden(pre.top as int, pre.skip as int) + rows,
                pre.rows_hidden(self.top as int, self.skip as int) + remaining == target,
            decreases remaining,
        {
            proof {
                pre.lemma_height_positive(self.top as int);
            }
            let entry_rows = self.entry_height(self.top);
            let hidden = if self.skip < entry_rows - 1 { self.skip } else { entry_rows - 1 };
            let visible = entry_rows - hidden;
            if remaining < visible {
                self.skip = self.skip + remaining;
                proof {
                    self.lemma_same_rows_before(&pre, self.top as int);
                }
                return;
            }
            remaining = remaining - visible;
            if self.top >= self.filtered.len() - 1 {
                proof {
                    self.lemma_same_rows_before(&pre, self.top as int);
                    assert(pre.rows_before(self.top + 1) == pre.rows_before(self.top as int) + pre.height_at(
                        self.top as int,
                    ));
                }
                return;
            }
            proof {
                pre.lemma_height_positive(self.top + 1);
            }
            self.top = self.top + 1;
            self.skip = 0;
        }
        proof {
            self.lemma_same_rows_before(&pre, self.top as int);
        }
    }

    pub proof fn lemma_same_rows_before(&self, other: &App, n: int)
        requires
            self.entries == other.entries,
            self.filtered == other.filtered,
            self.list_width == other.list_width,
        ensures
            self.rows_before(n) == other.rows_before(n),
        decreases n,
    {
        if n > 0 {
            self.lemma_same_rows_before(other, n - 1);
        }
    }
}


/// With no text and no bounds, every entry matches.
proof fn lemma_matching_all(entries: Seq<HistoryEntry>, needle: Seq<char>, n: int)
    requires
        0 <= n <= entries.len(),
        entries.len() <= usize::MAX,
        needle.len() == 0,
    ensures
        matching(entries, needle, None, None, n) == Seq::new(n as nat, |i: int| i as usize),
    decreases n,
{
    if n > 0 {
        lemma_matching_all(entries, needle, n - 1);
        assert(matching(entries, needle, None, None, n) =~= Seq::new(n as nat, |i: int| i as usize));
    }
}

proof fn lemma_matching_sorted(
    entries: Seq<HistoryEntry>,
    needle: Seq<char>,
    min: Option<usize>,
    max: Option<usize>,
    n: int,
)
    requires
        0 <= n <= entries.len(),
        entries.len() <= usize::MAX,
    ensures
        forall|k: int|
            0 <= k < matching(entries, needle, min, max, n).len() ==> #[trigger] matching(
                entries,
                needle,
                min,
                max,
                n,
            )[k] < n,
        forall|a: int, b: int|
            0 <= a < b < matching(entries, needle, min, max, n).len() ==> #[trigger] matching(
                entries,
                needle,
                min,
                max,
                n,
            )[a] < #[trigger] matching(entries, needle, min, max, n)[b],
    decreases n,
{
    if n > 0 {
        lemma_matching_sorted(entries, needle, min, max, n - 1);
        let prev = matching(entries, needle, min, max, n - 1);
        let cur = matching(entries, needle, min, max, n);
        assert forall|k: int| 0 <= k < cur.len() implies #[trigger] cur[k] < n by {
            if k < prev.len() {
                assert(cur[k] == prev[k]);
            }
        }
        assert forall|a: int, b: int| 0 <= a < b < cur.len() implies #[trigger] cur[a] < #[trigger] cur[b] by {
            assert(cur[a] == prev[a]);
            assert(prev[a] < n - 1);
            if b < prev.len() {
                assert(cur[b] == prev[b]);
            }
        }
    }
}

fn copy_set(set: &HashSet<usize>) -> (r: HashSet<usize>)
    ensures
        r@ == set@,
{
    let mut out: HashSet<usize> = HashSet::new();
    for k in it: set.iter()
        invariant
            out@ == it.seq().take(it.index() as int).unref().to_set(),
            it.seq().unref().to_set() == set@,
            it.index() == it.seq().len() ==> out@ == set@,
    {
        let ghost before = it.seq().take(it.index() as int).unref();
        proof {
            assert(it.seq().take(it.index() + 1).unref() =~= before.push(*k));
            before.lemma_push_to_set_commute(*k);
        }
        out.insert(*k);
        proof {
            assert(out@ =~= it.seq().take(it.index() + 1).unref().to_set());
            assert(it.seq().take(it.seq().len() as int) =~= it.seq());
        }
    }
    out
}

fn reversed(v: &Vec<usize>) -> (r: Vec<usize>)
    ensures
        r@ == v@.reverse(),
{
    let mut out: Vec<usize> = Vec::new();
    let mut i = v.len();
    while i > 0
        invariant
            i <= v@.len(),
            out@ == v@.subrange(i as int, v@.len() as int).reverse(),
        decreases i,
    {
        i = i - 1;
        assert(v@.subrange(i as int, v@.len() as int).reverse() =~= v@.subrange(
            i + 1,
            v@.len() as int,
        ).reverse().push(v@[i as int]));
        out.push(v[i]);
    }
    assert(v@.subrange(0, v@.len() as int) =~= v@);
    out
}

impl App {
    pub fn new(entries: Vec<HistoryEntry>, history_path: PathBuf) -> (r: Self)
        ensures
            r.entries == entries,
            r.history_path == history_path,
            r.filtered@ == r.view_order(),
            r.filtered@ == Seq::new(entries@.len(), |i: int| i as usize),
            r.wf(),
            r.selected@ == Set::<usize>::empty(),
            r.text_filter@ == Seq::<char>::empty(),
            r.min_length is None,
            r.max_length is None,
            r.cursor == 0,
            r.top == 0,
            r.skip == 0,
            r.viewport == 20,
            r.list_width == 80,
            r.mode == Mode::Normal,
            !r.newest_first,
            r.range_base@ == Set::<usize>::empty(),
            r.range_anchor == 0,
            r.deleted == 0,
            r.error_msg is None,
    {
        let mut app = App {
            entries,
            filtered: Vec::new(),
            selected: HashSet::new(),
            text_filter: String::new(),
            min_length: None,
            max_length: None,
            cursor: 0,
            top: 0,
            skip: 0,
            viewport: 20,
            list_width: 80,
            mode: Mode::Normal,
            newest_first: false,
            range_anchor: 0,
            range_base: HashSet::new(),
            deleted: 0,
            history_path,
            error_msg: None,
        };
        app.apply_filters();
        proof {
            if app.filtered@.len() > 0 {
                app.lemma_height_positive(0);
            }
            assert(app.entries@.len() == app.entries.len());
            lemma_matching_all(app.entries@, lowercase(app.text_filter@), app.entries@.len() as int);
        }
        app
    }

    /// Recomputes `filtered` and keeps the cursor inside the result.
    pub fn apply_filters(&mut self)
        ensures
            final(self).filters_applied(old(self)),
            lowercase(final(self).text_filter@).len() == 0 <==> final(self).text_filter@.len() == 0,
    {
        let needle = to_lowercase(self.text_filter.as_str());
        let min = self.min_length;
        let max = self.max_length;
        let mut found: Vec<usize> = Vec::new();
        let mut index: usize = 0;
        while index < self.entries.len()
            invariant
                index <= self.entries@.len(),
                needle@ == lowercase(self.text_filter@),
                min == self.min_length,
                max == self.max_length,
                found@ == matching(self.entries@, needle@, min, max, index as int),
            decreases self.entries@.len() - index,
        {
            let entry = &self.entries[index];
            let lowered = to_lowercase(entry.command.as_str());
            if passes_filters(lowered.as_str(), entry.char_len(), needle.as_str(), min, max) {
                found.push(index);
            }
            index = index + 1;
        }
        proof {
            lemma_matching_sorted(self.entries@, needle@, min, max, self.entries@.len() as int);
        }
        let ghost pre = *old(self);
        self.filtered = if self.newest_first {
            reversed(&found)
        } else {
            found
        };
        assert(self.wf());

        if self.filtered.len() == 0 {
            self.cursor = 0;
            self.top = 0;
            self.skip = 0;
        } else {
            if self.cursor > self.filtered.len() - 1 {
                self.cursor = self.filtered.len() - 1;
            }
            if self.top > self.filtered.len() - 1 {
                self.top = self.filtered.len() - 1;
            }
            self.ensure_visible();
        }
    }

    /// Records the list area size and re-fits the window.
    pub fn set_viewport(&mut self, width: usize, height: usize)
        requires
            old(self).wf(),
        ensures
            final(self).same_but_window(&App { list_width: width, viewport: height, ..*old(self) }),
            final(self).wf(),
            final(self).window_settled_from(old(self).cursor as int, old(self).top as int, old(self).skip as int),
    {
        self.list_width = width;
        self.viewport = height;
        self.ensure_visible();
    }

    /// The entries a range selection covers: those from the anchor up to,
    /// but not including, the cursor, in whichever direction the cursor went.
    pub open spec fn range_entries(&self) -> Set<usize> {
        let lo = if self.range_anchor <= self.cursor { self.range_anchor as int } else { self.cursor + 1 };
        let hi = if self.range_anchor <= self.cursor { self.cursor as int } else { self.range_anchor + 1 };
        Set::new(
            |i: usize|
                exists|p: int|
                    lo <= p < hi && 0 <= p < self.filtered@.len() && #[trigger] self.filtered@[p] == i,
        )
    }

    /// The selection while a range is being extended: what was selected
    /// before the range started, plus the range.
    pub open spec fn range_selection(&self) -> Set<usize> {
        self.range_base@.union(self.range_entries())
    }

    /// `self` is `old` with the cursor moved to `target` and the window
    /// settled; in range mode the selection follows the cursor.
    pub open spec fn moved_from(&self, old: &App, target: int) -> bool {
        if old.filtered@.len() == 0 {
            *self == *old
        } else {
            &&& self.filtered == old.filtered
            &&& self.entries == old.entries
            &&& self.text_filter == old.text_filter
            &&& self.min_length == old.min_length
            &&& self.max_length == old.max_length
            &&& self.viewport == old.viewport
            &&& self.list_width == old.list_width
            &&& self.mode == old.mode
            &&& self.newest_first == old.newest_first
            &&& self.range_anchor == old.range_anchor
            &&& self.range_base == old.range_base
            &&& self.deleted == old.deleted
            &&& self.history_path == old.history_path
            &&& self.error_msg == old.error_msg
            &&& self.window_settled_from(target, old.top as int, old.skip as int)
            &&& if old.mode == Mode::Range {
                self.selected@ == self.range_selection()
            } else {
                self.selected == old.selected
            }
        }
    }

    /// What a delete removes: the selection, unless `cursor_only` is set or
    /// nothing is selected; then the entry under the cursor, if any.
    pub open spec fn delete_target_set(&self, cursor_only: bool) -> Set<usize> {
        if !cursor_only && !self.selected@.is_empty() {
            self.selected@
        } else if self.cursor < self.filtered@.len() {
            set![self.filtered@[self.cursor as int]]
        } else {
            Set::empty()
        }
    }

    pub open spec fn cursor_entry_spec(&self) -> Option<usize> {
        if self.cursor < self.filtered@.len() {
            Some(self.filtered@[self.cursor as int])
        } else {
            None
        }
    }

    /// Index into `entries` under the cursor, if the list is non-empty.
    pub fn cursor_entry(&self) -> (r: Option<usize>)
        ensures
            r == self.cursor_entry_spec(),
    {
        if self.cursor < self.filtered.len() {
            Some(self.filtered[self.cursor])
        } else {
            None
        }
    }
}


impl App {
    /// Recomputes the selection of a range being extended.
    fn extend_range(&mut self)
        ensures
            final(self).selected@ == old(self).range_selection(),
            final(self).same_but_selection(old(self)),
    {
        let mut selection = copy_set(&self.range_base);
        let ghost lo0: int = if self.range_anchor <= self.cursor { self.range_anchor as int } else { self.cursor + 1 };
        let ghost hi0: int = if self.range_anchor <= self.cursor { self.cursor as int } else { self.range_anchor + 1 };
        let len = self.filtered.len();
        let lo = if self.range_anchor <= self.cursor {
            if self.range_anchor < len { self.range_anchor } else { len }
        } else {
            if self.cursor < len { self.cursor + 1 } else { len }
        };
        let hi = if self.range_anchor <= self.cursor {
            if self.cursor < len { self.cursor } else { len }
        } else {
            if self.range_anchor < len { self.range_anchor + 1 } else { len }
        };
        assert(lo == min_nat(lo0, len as int) && hi == min_nat(hi0, len as int));
        let mut p = lo;
        while p < hi
            invariant
                len == self.filtered@.len(),
                lo0 == (if self.range_anchor <= self.cursor { self.range_anchor as int } else { self.cursor + 1 }),
                hi0 == (if self.range_anchor <= self.cursor { self.cursor as int } else { self.range_anchor + 1 }),
                lo <= p <= hi,
                lo <= hi <= len,
                lo == min_nat(lo0, len as int),
                hi == min_nat(hi0, len as int),
                self == old(self),
                selection@ == self.range_base@.union(
                    Set::new(|i: usize| exists|q: int| lo <= q < p && #[trigger] self.filtered@[q] == i),
                ),
            decreases hi - p,
        {
            selection.insert(self.filtered[p]);
            proof {
                assert(selection@ =~= self.range_base@.union(
                    Set::new(|i: usize| exists|q: int| lo <= q < p + 1 && #[trigger] self.filtered@[q] == i),
                )) by {
                    assert forall|i: usize| selection@.contains(i) implies self.range_base@.union(
                        Set::new(|i: usize| exists|q: int| lo <= q < p + 1 && #[trigger] self.filtered@[q] == i),
                    ).contains(i) by {
                        if i == self.filtered@[p as int] {
                            assert(lo <= p < p + 1 && self.filtered@[p as int] == i);
                        } else if !self.range_base@.contains(i) {
                            let q = choose|q: int| lo <= q < p && #[trigger] self.filtered@[q] == i;
                            assert(lo <= q < p + 1 && self.filtered@[q] == i);
                        }
                    }
                }
            }
            p = p + 1;
        }
        proof {
            assert(selection@ =~= self.range_selection()) by {
                assert forall|i: usize| #[trigger] self.range_entries().contains(i) implies selection@.contains(i) by {
                    let q = choose|q: int|
                        lo0 <= q < hi0 && 0 <= q < self.filtered@.len() && #[trigger] self.filtered@[q] == i;
                    assert(lo <= q < p && self.filtered@[q] == i);
                }
                assert forall|i: usize| selection@.contains(i) && !self.range_base@.contains(i) implies #[trigger] self.range_entries().contains(i) by {
                    let q = choose|q: int| lo <= q < p && #[trigger] self.filtered@[q] == i;
                    assert(lo0 <= q < hi0 && 0 <= q < self.filtered@.len() && self.filtered@[q] == i);
                }
            }
        }
        self.selected = selection;
    }
}

pub open spec fn saturating_offset(cursor: usize, delta: isize) -> int {
    if cursor + delta < 0 {
        0
    } else if cursor + delta > usize::MAX {
        usize::MAX as int
    } else {
        cursor + delta
    }
}

impl App {
    /// Settles the window on the cursor, then lets a range selection follow it.
    fn follow_cursor(&mut self)
        requires
            old(self).wf(),
            old(self).filtered@.len() > 0,
        ensures
            final(self).moved_from(old(self), old(self).cursor as int),
            final(self).wf(),
    {
        self.ensure_visible();
        if self.mode == Mode::Range {
            let ghost mid = *self;
            self.extend_range();
            proof {
                mid.lemma_same_settled(self, old(self).cursor as int, old(self).top as int, old(self).skip as int);
            }
        }
    }

    /// Moves the cursor `delta` positions, stopping at either end of the view.
    pub fn move_cursor(&mut self, delta: isize)
        requires
            old(self).wf(),
        ensures
            final(self).moved_from(
                old(self),
                min_nat(saturating_offset(old(self).cursor, delta), old(self).filtered@.len() - 1),
            ),
            final(self).wf(),
    {
        if self.filtered.len() == 0 {
            return;
        }
        let last = self.filtered.len() - 1;
        let moved = match self.cursor.checked_add_signed(delta) {
            Some(position) => position,
            None => if delta < 0 {
                0
            } else {
                usize::MAX
            },
        };
        self.cursor = if moved < last {
            moved
        } else {
            last
        };
        self.follow_cursor();
    }

    /// Puts the cursor at `position`, or on the last entry when past the end.
    pub fn goto(&mut self, position: usize)
        requires
            old(self).wf(),
        ensures
            final(self).moved_from(old(self), min_nat(position as int, old(self).filtered@.len() - 1)),
            final(self).wf(),
    {
        if self.filtered.len() == 0 {
            return;
        }
        self.cursor = if position < self.filtered.len() - 1 {
            position
        } else {
            self.filtered.len() - 1
        };
        self.follow_cursor();
    }

    /// Selects the entry under the cursor, or unselects it if it was selected.
    pub fn toggle_selection(&mut self)
        ensures
            final(self).selection_toggled(old(self)),
    {
        if let Some(index) = self.cursor_entry() {
            if !self.selected.remove(&index) {
                self.selected.insert(index);
            }
            proof {
                if old(self).selected@.contains(index) {
                    assert(self.selected@ == old(self).selected@.remove(index));
                } else {
                    assert(self.selected@ == old(self).selected@.insert(index));
                }
            }
        }
    }

    /// Starts a range selection anchored at the cursor.
    pub fn begin_range(&mut self)
        ensures
            final(self).range_begun(old(self)),
    {
        if self.filtered.len() == 0 {
            return;
        }
        self.range_base = copy_set(&self.selected);
        self.range_anchor = self.cursor;
        self.mode = Mode::Range;
        self.extend_range();
    }

    /// Ends a range selection, keeping what it selected.
    pub fn finish_range(&mut self)
        ensures
            final(self).range_finished(old(self)),
    {
        self.mode = Mode::Normal;
    }

    /// Abandons a range selection, putting back the selection it started from.
    pub fn cancel_range(&mut self)
        ensures
            final(self).range_cancelled(old(self)),
    {
        self.selected = copy_set(&self.range_base);
        self.mode = Mode::Normal;
    }

    /// Selects every entry in the view; when all of them already are, removes
    /// them all from the selection instead. Entries outside the view are
    /// never touched.
    pub fn toggle_select_all(&mut self)
        ensures
            final(self).select_all_toggled(old(self)),
    {
        let ghost view = self.filtered@.to_set();
        let mut all = true;
        let mut p: usize = 0;
        while p < self.filtered.len()
            invariant
                self == old(self),
                view == self.filtered@.to_set(),
                p <= self.filtered@.len(),
                all <==> forall|q: int| 0 <= q < p ==> self.selected@.contains(#[trigger] self.filtered@[q]),
            decreases self.filtered@.len() - p,
        {
            if !self.selected.contains(&self.filtered[p]) {
                all = false;
            }
            p = p + 1;
        }
        assert(all <==> view.subset_of(self.selected@)) by {
            if all {
                assert forall|i: usize| view.contains(i) implies self.selected@.contains(i) by {
                    let q = choose|q: int| 0 <= q < self.filtered@.len() && self.filtered@[q] == i;
                }
            } else {
                let q = choose|q: int| 0 <= q < p && !self.selected@.contains(#[trigger] self.filtered@[q]);
                assert(view.contains(self.filtered@[q]));
            }
        }
        let ghost start = self.selected@;
        let mut p: usize = 0;
        while p < self.filtered.len()
            invariant
                self.same_but_selection(old(self)),
                start == old(self).selected@,
                view == self.filtered@.to_set(),
                p <= self.filtered@.len(),
                self.selected@ == (if all {
                    start.difference(self.filtered@.take(p as int).to_set())
                } else {
                    start.union(self.filtered@.take(p as int).to_set())
                }),
            decreases self.filtered@.len() - p,
        {
            let index = self.filtered[p];
            proof {
                assert(self.filtered@.take(p + 1) =~= self.filtered@.take(p as int).push(index));
                self.filtered@.take(p as int).lemma_push_to_set_commute(index);
            }
            if all {
                self.selected.remove(&index);
            } else {
                self.selected.insert(index);
            }
            proof {
                assert(self.selected@ =~= (if all {
                    start.difference(self.filtered@.take(p + 1).to_set())
                } else {
                    start.union(self.filtered@.take(p + 1).to_set())
                }));
            }
            p = p + 1;
        }
        assert(self.filtered@.take(p as int) =~= self.filtered@);
    }
}

impl App {
    /// Entries a delete keypress should remove: the whole selection, or just
    /// the entry under the cursor when `cursor_only` is set or nothing is
    /// selected.
    pub fn delete_targets(&self, cursor_only: bool) -> (r: HashSet<usize>)
        ensures
            r@ == self.delete_target_set(cursor_only),
    {
        if !cursor_only && !self.selected.is_empty() {
            copy_set(&self.selected)
        } else {
            let mut targets: HashSet<usize> = HashSet::new();
            if let Some(index) = self.cursor_entry() {
                targets.insert(index);
                assert(targets@ =~= set![index]);
            }
            targets
        }
    }

    /// Drops `targets` from `entries`; returns how many entries were removed.
    /// The selection is cleared, a range selection ends, and the view is
    /// recomputed over the remaining entries.
    pub fn remove(&mut self, targets: &HashSet<usize>) -> (r: usize)
        ensures
            r == old(self).entries@.len() - final(self).entries@.len(),
            final(self).removed_from(old(self), targets@),
    {
        let mut all: Vec<HistoryEntry> = Vec::new();
        std::mem::swap(&mut all, &mut self.entries);
        let total = all.len();
        let ghost source = all@;
        let mut kept: Vec<HistoryEntry> = Vec::new();
        let mut removed: usize = 0;
        let mut index: usize = 0;
        for entry in it: all.into_iter()
            invariant
                it.seq() == source,
                index == it.index(),
                source.len() == total,
                kept@ == retained(source, targets@, index as int),
                kept@.len() + removed == index,
        {
            if targets.contains(&index) {
                removed = removed + 1;
            } else {
                kept.push(entry);
            }
            index = index + 1;
        }
        self.entries = kept;
        self.selected.clear();
        self.range_base.clear();
        if self.mode == Mode::Range {
            self.mode = Mode::Normal;
        }
        self.apply_filters();
        removed
    }

    /// Removes what a delete keypress targets from memory: `None` when it
    /// targets nothing, and otherwise how many entries went. The caller
    /// rewrites the history file after a removal.
    pub fn delete(&mut self, cursor_only: bool) -> (r: Option<usize>)
        ensures
            old(self).delete_target_set(cursor_only).len() == 0 ==> r is None && *final(self) == *old(self),
            old(self).delete_target_set(cursor_only).len() > 0 ==> {
                &&& r == Some((old(self).entries@.len() - final(self).entries@.len()) as usize)
                &&& final(self).removed_from(old(self), old(self).delete_target_set(cursor_only))
            },
            old(self).wf() ==> final(self).wf(),
    {
        let targets = self.delete_targets(cursor_only);
        if targets.len() == 0 {
            return None;
        }
        Some(self.remove(&targets))
    }

    /// Flips between file order and newest first, keeping the cursor on the
    /// entry it was on; the window scrolls to follow it.
    pub fn toggle_order(&mut self)
        requires
            old(self).wf(),
        ensures
            final(self).order_toggled(old(self)),
            final(self).wf(),
    {
        self.newest_first = !self.newest_first;
        let flipped = reversed(&self.filtered);
        self.filtered = flipped;
        let len = self.filtered.len();
        if len == 0 {
            return;
        }
        if self.cursor < len {
            self.cursor = len - 1 - self.cursor;
        }
        if self.range_anchor < len {
            self.range_anchor = len - 1 - self.range_anchor;
        }
        assert(self.wf());
        self.ensure_visible();
    }
}

impl App {
    /// Once `ensure_visible` has run, the cursor is on screen: the cursor
    /// entry starts inside the window, and ends inside it too when it is no
    /// taller than the window.
    pub proof fn lemma_settled_shows_cursor(&self, cursor: int, top: int, skip: int)
        requires
            self.window_settled_from(cursor, top, skip),
            self.filtered@.len() > 0,
        ensures
            self.top <= self.cursor < self.filtered@.len(),
            self.rows_through(self.top as int, self.skip as int, self.cursor - 1) < self.window_height(),
            self.height_at(self.cursor as int) <= self.window_height() ==> self.rows_through(
                self.top as int,
                self.skip as int,
                self.cursor as int,
            ) <= self.window_height(),
    {
        let c = self.cursor as int;
        self.lemma_height_positive(c);
        if self.top < c {
            assert(self.rows_through(self.top as int, self.skip as int, c) == self.rows_through(
                self.top as int,
                self.skip as int,
                c - 1,
            ) + self.height_at(c));
        }
    }

    /// A window that already shows the whole cursor entry, no taller than the
    /// window, is left where it is.
    pub proof fn lemma_visible_window_kept(&self, cursor: int, top: int, skip: int)
        requires
            self.window_settled_from(cursor, top, skip),
            0 <= top <= cursor < self.filtered@.len(),
            self.height_at(cursor) <= self.window_height(),
            self.rows_through(top, skip, cursor) <= self.window_height(),
        ensures
            self.cursor == cursor,
            self.top == top,
            self.skip == skip,
    {
        self.lemma_height_positive(cursor);
        if top < cursor {
            assert(self.rows_through(top, skip, cursor) == self.rows_through(top, skip, cursor - 1)
                + self.height_at(cursor));
        }
    }

    /// Settling the window twice changes nothing the second time.
    pub proof fn lemma_settled_is_stable(&self, cursor: int, top: int, skip: int)
        requires
            self.window_settled_from(cursor, top, skip),
        ensures
            self.window_settled_from(self.cursor as int, self.top as int, self.skip as int),
    {
        if self.filtered@.len() > 0 {
            let c = self.cursor as int;
            self.lemma_settled_shows_cursor(cursor, top, skip);
            self.lemma_height_positive(c);
            if self.height_at(c) <= self.window_height() {
                self.lemma_visible_window_kept(c, self.top as int, self.skip as int);
            }
        }
    }

    /// Toggling the selection twice on the same entry gives the selection back.
    pub proof fn lemma_toggle_selection_twice(&self, once: &App, twice: &App)
        requires
            once.selection_toggled(self),
            twice.selection_toggled(once),
        ensures
            twice.selected@ == self.selected@,
    {
        if self.cursor < self.filtered@.len() {
            let index = self.filtered@[self.cursor as int];
            if self.selected@.contains(index) {
                assert(twice.selected@ =~= self.selected@);
            } else {
                assert(twice.selected@ =~= self.selected@);
            }
        }
    }

    /// Select-all leaves the whole view selected or the whole view unselected,
    /// and never touches an entry outside the view.
    pub proof fn lemma_select_all_covers_view(&self, after: &App)
        requires
            after.select_all_toggled(self),
        ensures
            self.filtered@.to_set().subset_of(after.selected@) || self.filtered@.to_set().disjoint(
                after.selected@,
            ),
            forall|i: usize|
                !self.filtered@.to_set().contains(i) ==> (after.selected@.contains(i)
                    <==> self.selected@.contains(i)),
    {
    }

    /// Pressing select-all twice on a view that was not wholly selected
    /// leaves the view's entries unselected and the rest as it was.
    pub proof fn lemma_select_all_twice(&self, once: &App, twice: &App)
        requires
            !self.filtered@.to_set().subset_of(self.selected@),
            once.select_all_toggled(self),
            twice.select_all_toggled(once),
        ensures
            twice.selected@ == self.selected@.difference(self.filtered@.to_set()),
    {
        assert(once.filtered@.to_set().subset_of(once.selected@));
        assert(twice.selected@ =~= self.selected@.difference(self.filtered@.to_set()));
    }

    /// A range selection follows the cursor both ways: sweeping out and back
    /// to where the cursor was gives the selection back as it was.
    pub proof fn lemma_range_sweep_back(&self, out: &App, back: &App, target: int)
        requires
            self.mode == Mode::Range,
            self.selected@ == self.range_selection(),
            self.cursor < self.filtered@.len(),
            out.moved_from(self, target),
            back.moved_from(out, self.cursor as int),
        ensures
            back.selected@ == self.selected@,
            back.cursor == self.cursor,
    {
        assert(back.range_entries() =~= self.range_entries());
    }

    /// Abandoning a range selection restores the selection from before it,
    /// however the cursor moved in between.
    pub proof fn lemma_cancelled_range_restores(&self, begun: &App, moved: &App, cancelled: &App)
        requires
            self.filtered@.len() > 0,
            begun.range_begun(self),
            moved.range_base == begun.range_base,
            cancelled.range_cancelled(moved),
        ensures
            cancelled.selected@ == self.selected@,
    {
    }

    /// Flipping the order twice gives the view back, with the cursor on the
    /// same entry.
    pub proof fn lemma_order_twice(&self, once: &App, twice: &App)
        requires
            once.order_toggled(self),
            twice.order_toggled(once),
        ensures
            twice.filtered@ == self.filtered@,
            twice.newest_first == self.newest_first,
            self.cursor < self.filtered@.len() ==> twice.cursor_entry_spec() == self.cursor_entry_spec(),
    {
        assert(self.filtered@.reverse().reverse() =~= self.filtered@);
        if self.cursor < self.filtered@.len() {
            assert(once.cursor < once.filtered@.len());
        }
    }

    /// Flipping the order keeps the view listing exactly the matching entries.
    pub proof fn lemma_order_keeps_view(&self, after: &App)
        requires
            self.filtered@ == self.view_order(),
            after.order_toggled(self),
        ensures
            after.filtered@ == after.view_order(),
    {
        let found = matching(
            self.entries@,
            lowercase(self.text_filter@),
            self.min_length,
            self.max_length,
            self.entries@.len() as int,
        );
        assert(found.reverse().reverse() =~= found);
    }
}

impl App {
    /// The rows shown from row `row` of the entry at `position` on, at most
    /// `count` of them: each as the view position and the wrapped row of that
    /// entry.
    pub open spec fn rows_shown_from(&self, position: int, row: int, count: nat) -> Seq<(usize, usize)>
        decreases count,
    {
        if count == 0 || position < 0 || position >= self.filtered@.len() {
            Seq::empty()
        } else if row + 1 < self.height_at(position) {
            seq![(position as usize, row as usize)] + self.rows_shown_from(position, row + 1, (count - 1) as nat)
        } else {
            seq![(position as usize, row as usize)] + self.rows_shown_from(position + 1, 0, (count - 1) as nat)
        }
    }

    /// The rows of the window, top to bottom: from the anchor entry, past the
    /// rows it skips, until the window is full or the view ends.
    pub open spec fn window_spec(&self) -> Seq<(usize, usize)> {
        if self.top >= self.filtered@.len() {
            Seq::empty()
        } else {
            self.rows_shown_from(
                self.top as int,
                min_nat(self.skip as int, self.height_at(self.top as int) - 1),
                self.viewport as nat,
            )
        }
    }

    /// The rows the list area shows, each as a view position and the wrapped
    /// row of that entry.
    pub fn window_rows(&self) -> (r: Vec<(usize, usize)>)
        requires
            self.wf(),
        ensures
            r@ == self.window_spec(),
            forall|k: int|
                0 <= k < r@.len() ==> {
                    let shown = #[trigger] r@[k];
                    &&& shown.0 < self.filtered@.len()
                    &&& shown.1 < self.height_at(shown.0 as int)
                },
    {
        let mut out: Vec<(usize, usize)> = Vec::new();
        if self.top >= self.filtered.len() {
            return out;
        }
        proof {
            self.lemma_height_positive(self.top as int);
        }
        let mut position = self.top;
        let mut rows = self.entry_height(position);
        let mut row = if self.skip < rows - 1 {
            self.skip
        } else {
            rows - 1
        };
        let mut count = self.viewport;
        while count > 0 && position < self.filtered.len()
            invariant
                self.wf(),
                position < self.filtered@.len() ==> rows == self.height_at(position as int) && row < rows,
                out@ + self.rows_shown_from(position as int, row as int, count as nat) == self.window_spec(),
                forall|k: int|
                    0 <= k < out@.len() ==> {
                        let shown = #[trigger] out@[k];
                        &&& shown.0 < self.filtered@.len()
                        &&& shown.1 < self.height_at(shown.0 as int)
                    },
            decreases count,
        {
            let ghost before = out@;
            let ghost (p0, r0, c0) = (position as int, row as int, count as nat);
            out.push((position, row));
            if row + 1 < rows {
                row = row + 1;
            } else {
                position = position + 1;
                row = 0;
                if position < self.filtered.len() {
                    proof {
                        self.lemma_height_positive(position as int);
                    }
                    rows = self.entry_height(position);
                }
            }
            count = count - 1;
            proof {
                assert(self.rows_shown_from(p0, r0, c0) == seq![(p0 as usize, r0 as usize)]
                    + self.rows_shown_from(position as int, row as int, count as nat));
                assert(out@ + self.rows_shown_from(position as int, row as int, count as nat)
                    =~= before + self.rows_shown_from(p0, r0, c0));
            }
        }
        proof {
            assert(self.rows_shown_from(position as int, row as int, count as nat) =~= Seq::<(usize, usize)>::empty());
            assert(out@ =~= self.window_spec());
        }
        out
    }
}

/// How many indices below `n` are in `targets`.
pub open spec fn count_below(targets: Set<usize>, n: nat) -> nat
    decreases n,
{
    if n == 0 {
        0
    } else {
        count_below(targets, (n - 1) as nat) + if targets.contains((n - 1) as usize) { 1nat } else { 0nat }
    }
}

proof fn lemma_count_agree(a: Set<usize>, b: Set<usize>, n: nat)
    requires
        n <= usize::MAX + 1,
        forall|i: usize| i < n ==> (a.contains(i) <==> b.contains(i)),
    ensures
        count_below(a, n) == count_below(b, n),
    decreases n,
{
    if n > 0 {
        lemma_count_agree(a, b, (n - 1) as nat);
    }
}

proof fn lemma_count_is_len(targets: Set<usize>, n: nat)
    requires
        n <= usize::MAX + 1,
        forall|i: usize| targets.contains(i) ==> i < n,
    ensures
        targets.finite(),
        targets.len() == count_below(targets, n),
    decreases n,
{
    if n == 0 {
        assert(targets =~= Set::<usize>::empty());
    } else {
        let last = (n - 1) as usize;
        let rest = targets.remove(last);
        lemma_count_is_len(rest, (n - 1) as nat);
        lemma_count_agree(rest, targets, (n - 1) as nat);
        if targets.contains(last) {
            assert(targets =~= rest.insert(last));
        } else {
            assert(targets =~= rest);
        }
    }
}

proof fn lemma_retained_len(entries: Seq<HistoryEntry>, targets: Set<usize>, n: nat)
    requires
        n <= entries.len(),
    ensures
        retained(entries, targets, n as int).len() == n - count_below(targets, n),
    decreases n,
{
    if n > 0 {
        lemma_retained_len(entries, targets, (n - 1) as nat);
    }
}

impl App {
    /// Removing targets that all name loaded entries leaves exactly that many
    /// entries fewer, so the count `remove` and `delete` report is the number
    /// of entries that went.
    pub proof fn lemma_removed_count(&self, after: &App, targets: Set<usize>)
        requires
            after.removed_from(self, targets),
            forall|i: usize| targets.contains(i) ==> i < self.entries@.len(),
        ensures
            after.entries@.len() == self.entries@.len() - targets.len(),
    {
        assert(self.entries@.len() == self.entries.len());
        lemma_count_is_len(targets, self.entries@.len());
        lemma_retained_len(self.entries@, targets, self.entries@.len());
    }
}

impl App {
    /// Deleting keeps every surviving entry's bytes as read: when the entries
    /// were parsed from `data`, the file written after removing `targets`
    /// holds the other stored entries of `data`, each with its bytes as read,
    /// in file order; and it reads back as exactly those entries unless a
    /// kept plain line ends up right after a kept line ending in a backslash.
    pub proof fn lemma_delete_writes_survivors(&self, after: &App, data: Seq<u8>, targets: Set<usize>)
        requires
            self.entries@.len() == stored_entries(data).len(),
            forall|i: int|
                0 <= i < self.entries@.len() ==> models(#[trigger] self.entries@[i], stored_entries(data)[i]),
            after.removed_from(self, targets),
        ensures
            raw_bytes(after.entries@) == stored_bytes(
                retained(stored_entries(data), targets, stored_entries(data).len() as int),
            ),
            survivors_stay_apart(stored_entries(data), targets) ==> stored_entries(raw_bytes(after.entries@))
                == retained(stored_entries(data), targets, stored_entries(data).len() as int),
    {
        lemma_delete_keeps_bytes(data, self.entries@, targets);
        if survivors_stay_apart(stored_entries(data), targets) {
            lemma_rewrite_reads_back(data, self.entries@, targets);
        }
    }
}

proof fn lemma_matching_contains(
    entries: Seq<HistoryEntry>,
    needle: Seq<char>,
    min: Option<usize>,
    max: Option<usize>,
    n: int,
    i: usize,
)
    requires
        0 <= n <= entries.len(),
        entries.len() <= usize::MAX,
    ensures
        matching(entries, needle, min, max, n).contains(i) <==> (i < n && entry_matches(
            entries[i as int],
            needle,
            min,
            max,
        )),
    decreases n,
{
    if n > 0 {
        lemma_matching_contains(entries, needle, min, max, n - 1, i);
        let prev = matching(entries, needle, min, max, n - 1);
        if entry_matches(entries[n - 1], needle, min, max) {
            let cur = prev.push((n - 1) as usize);
            assert(cur.contains(i) <==> (prev.contains(i) || i == n - 1)) by {
                if cur.contains(i) {
                    let k = choose|k: int| 0 <= k < cur.len() && #[trigger] cur[k] == i;
                    if k < prev.len() {
                        assert(prev[k] == i);
                    }
                }
                if prev.contains(i) {
                    let k = choose|k: int| 0 <= k < prev.len() && #[trigger] prev[k] == i;
                    assert(cur[k] == i);
                }
                if i == n - 1 {
                    assert(cur[prev.len() as int] == i);
                }
            }
        }
    }
}

impl App {
    /// The view lists exactly the entries that pass the filters: the text
    /// filter as a case-insensitive substring, the length bounds inclusive.
    pub proof fn lemma_view_is_matching(&self)
        requires
            self.filtered@ == self.view_order(),
        ensures
            forall|i: usize|
                #![trigger self.filtered@.contains(i)]
                self.filtered@.contains(i) <==> (i < self.entries@.len() && entry_matches(
                    self.entries@[i as int],
                    lowercase(self.text_filter@),
                    self.min_length,
                    self.max_length,
                )),
    {
        let needle = lowercase(self.text_filter@);
        let found = matching(self.entries@, needle, self.min_length, self.max_length, self.entries@.len() as int);
        assert(self.entries@.len() == self.entries.len());
        assert forall|i: usize|
            #![trigger self.filtered@.contains(i)]
            self.filtered@.contains(i) <==> (i < self.entries@.len() && entry_matches(
                self.entries@[i as int],
                needle,
                self.min_length,
                self.max_length,
            )) by {
            lemma_matching_contains(self.entries@, needle, self.min_length, self.max_length, self.entries@.len() as int, i);
            if self.newest_first {
                if found.reverse().contains(i) {
                    let k = choose|k: int| 0 <= k < found.len() && #[trigger] found.reverse()[k] == i;
                    assert(found[found.len() - 1 - k] == i);
                }
                if found.contains(i) {
                    let k = choose|k: int| 0 <= k < found.len() && #[trigger] found[k] == i;
                    assert(found.reverse()[found.len() - 1 - k] == i);
                }
            }
        }
    }
}

impl App {
    /// The entries passing the current filters.
    pub open spec fn matching_set(&self) -> Set<usize> {
        Set::new(
            |i: usize|
                i < self.entries@.len() && entry_matches(
                    self.entries@[i as int],
                    lowercase(self.text_filter@),
                    self.min_length,
                    self.max_length,
                ),
        )
    }

    /// With nothing selected, select-all followed by delete removes exactly
    /// the entries that pass the filters, keeping the others in order.
    pub proof fn lemma_select_all_then_delete(&self, all: &App, after: &App)
        requires
            self.filtered@ == self.view_order(),
            self.filtered@.len() > 0,
            self.selected@.is_empty(),
            all.select_all_toggled(self),
            after.removed_from(all, all.delete_target_set(false)),
        ensures
            after.entries@ == retained(self.entries@, self.matching_set(), self.entries@.len() as int),
    {
        let view = self.filtered@.to_set();
        assert(view.contains(self.filtered@[0]));
        assert(!view.subset_of(self.selected@));
        assert(all.selected@ =~= view);
        assert(!all.selected@.is_empty());
        self.lemma_view_is_matching();
        assert forall|i: usize| view.contains(i) <==> self.matching_set().contains(i) by {
            assert(view.contains(i) <==> self.filtered@.contains(i));
        }
        assert(view =~= self.matching_set());
    }
}

/// `tighter` is a lower length bound at least as strict as `looser`.
pub open spec fn min_at_least(looser: Option<usize>, tighter: Option<usize>) -> bool {
    match looser {
        None => true,
        Some(a) => match tighter {
            Some(b) => a <= b,
            None => false,
        },
    }
}

/// `tighter` is an upper length bound at least as strict as `looser`.
pub open spec fn max_at_most(looser: Option<usize>, tighter: Option<usize>) -> bool {
    match looser {
        None => true,
        Some(a) => match tighter {
            Some(b) => b <= a,
            None => false,
        },
    }
}

impl App {
    /// Tightening the length bounds never admits more entries: with the same
    /// entries and text filter, every entry the stricter bounds list is also
    /// listed under the looser ones.
    pub proof fn lemma_tighter_bounds_admit_fewer(&self, other: &App)
        requires
            self.filtered@ == self.view_order(),
            other.filtered@ == other.view_order(),
            self.entries == other.entries,
            self.text_filter == other.text_filter,
            min_at_least(self.min_length, other.min_length),
            max_at_most(self.max_length, other.max_length),
        ensures
            forall|x: usize| other.filtered@.contains(x) ==> self.filtered@.contains(x),
    {
        self.lemma_view_is_matching();
        other.lemma_view_is_matching();
        assert forall|x: usize| other.filtered@.contains(x) implies self.filtered@.contains(x) by {
            assert(other.filtered@.contains(x));
            assert(self.filtered@.contains(x) <==> (x < self.entries@.len() && entry_matches(
                self.entries@[x as int],
                lowercase(self.text_filter@),
                self.min_length,
                self.max_length,
            )));
        }
    }
}

impl App {
    /// `rows_shown_from` reaches every row that lies fewer than `count` rows
    /// further down the view.
    pub proof fn lemma_rows_shown_reach(&self, p0: int, r0: int, count: nat, c: int, r: int)
        requires
            0 <= p0 <= c < self.filtered@.len(),
            0 <= r0 < self.height_at(p0),
            0 <= r < self.height_at(c),
            c == p0 ==> r0 <= r,
            self.rows_before(c) + r - (self.rows_before(p0) + r0) < count,
        ensures
            self.rows_shown_from(p0, r0, count).contains((c as usize, r as usize)),
        decreases count,
    {
        if p0 < c {
            self.lemma_rows_before_monotone(p0, c);
        }
        assert(count > 0);
        let shown = self.rows_shown_from(p0, r0, count);
        if p0 == c && r0 == r {
            assert(shown[0] == (c as usize, r as usize));
        } else {
            let next = if r0 + 1 < self.height_at(p0) {
                self.rows_shown_from(p0, r0 + 1, (count - 1) as nat)
            } else {
                self.rows_shown_from(p0 + 1, 0, (count - 1) as nat)
            };
            assert(shown == seq![(p0 as usize, r0 as usize)] + next);
            if r0 + 1 < self.height_at(p0) {
                self.lemma_rows_shown_reach(p0, r0 + 1, (count - 1) as nat, c, r);
            } else {
                self.lemma_height_positive(p0 + 1);
                self.lemma_rows_before_monotone(p0 + 1, c);
                self.lemma_rows_shown_reach(p0 + 1, 0, (count - 1) as nat, c, r);
            }
            let k = choose|k: int| 0 <= k < next.len() && next[k] == (c as usize, r as usize);
            assert(shown[k + 1] == (c as usize, r as usize));
        }
    }

    /// The window starts `skip` rows into the entry at `top` (at most at its
    /// last row), and once `ensure_visible` has settled it, it shows every
    /// row of a cursor entry no taller than the window, unless the cursor
    /// sits on the window's first entry and that entry was already scrolled
    /// partly out of sight, which settling leaves as it is.
    pub proof fn lemma_window_shows_cursor_entry(&self, cursor: int, top: int, skip: int)
        requires
            self.wf(),
            self.viewport > 0,
        ensures
            self.top < self.filtered@.len() ==> self.window_spec()[0] == (
                self.top,
                min_nat(self.skip as int, self.height_at(self.top as int) - 1) as usize,
            ),
            self.window_settled_from(cursor, top, skip) && self.filtered@.len() > 0 && self.height_at(
                self.cursor as int,
            ) <= self.viewport && (self.top < self.cursor || self.skip == 0) ==> forall|r: int|
                0 <= r < self.height_at(self.cursor as int) ==> #[trigger] self.window_spec().contains(
                    (self.cursor, r as usize),
                ),
    {
        if self.top < self.filtered@.len() {
            self.lemma_height_positive(self.top as int);
        }
        if self.window_settled_from(cursor, top, skip) && self.filtered@.len() > 0 && self.height_at(
            self.cursor as int,
        ) <= self.viewport && (self.top < self.cursor || self.skip == 0) {
            let c = self.cursor as int;
            let t = self.top as int;
            self.lemma_settled_shows_cursor(cursor, top, skip);
            self.lemma_height_positive(t);
            let s0 = min_nat(self.skip as int, self.height_at(t) - 1);
            self.lemma_rows_through_before(t, self.skip as int, c);
            assert forall|r: int| 0 <= r < self.height_at(c) implies #[trigger] self.window_spec().contains(
                (self.cursor, r as usize),
            ) by {
                if t < c {
                    self.lemma_rows_before_monotone(t + 1, c);
                }
                self.lemma_rows_shown_reach(t, s0, self.viewport as nat, c, r);
            }
        }
    }
}

} // verus!
