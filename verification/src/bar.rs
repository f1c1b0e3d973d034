//! The text of the filter bar and the status bar.

use vstd::prelude::*;

use crate::app::{decimal_len, lemma_usize_digits, App, Mode, GAP_WIDTH, MARKER_WIDTH};
use crate::input::{decimal, decimal_chars};
use crate::strings::push_char;
use crate::text::{rows, sanitize, sanitized, wrap};

verus! {

broadcast use vstd::std_specs::hash::group_hash_axioms;

/// How a piece of bar text is shown.
#[derive(Clone, Copy, PartialEq, Eq, Structural, Debug)]
pub enum Tone {
    /// The filter being typed.
    Picked,
    /// Labels and filters not in use.
    Idle,
    /// A length bound in use, or the flipped order.
    Active,
    /// The entry counts.
    Count,
    /// The selection count.
    Selection,
    /// The key help.
    Hint,
    /// A write failure.
    Error,
}

pub struct Segment {
    pub text: String,
    pub tone: Tone,
}

pub open spec fn segment_view(segment: Segment) -> (Seq<char>, Tone) {
    (segment.text@, segment.tone)
}

pub open spec fn bound_text(sign: char, bound: Option<usize>) -> Seq<char> {
    match bound {
        Some(value) => seq![sign] + decimal_chars(value as nat),
        None => seq![sign, '-'],
    }
}

pub open spec fn bound_tone(editing: bool, bound: Option<usize>) -> Tone {
    if editing {
        Tone::Picked
    } else if bound is Some {
        Tone::Active
    } else {
        Tone::Idle
    }
}

impl App {
    /// The filter bar: the text filter, the two length bounds, how many
    /// entries the filters left out of how many, the order when it is
    /// flipped, and the selection count when something is selected.
    pub open spec fn filter_bar_spec(&self) -> Seq<(Seq<char>, Tone)> {
        let base = seq![
            (
                "Text: \""@ + self.text_filter@ + "\" "@,
                if self.mode == Mode::FilterText { Tone::Picked } else { Tone::Idle },
            ),
            ("| Len: "@, Tone::Idle),
            (bound_text('\u{2265}', self.min_length), bound_tone(self.mode == Mode::FilterMinLen, self.min_length)),
            (" "@, Tone::Idle),
            (bound_text('\u{2264}', self.max_length), bound_tone(self.mode == Mode::FilterMaxLen, self.max_length)),
            (" | "@, Tone::Idle),
            (
                "Entries: "@ + decimal_chars(self.filtered@.len()) + "/"@ + decimal_chars(self.entries@.len()),
                Tone::Count,
            ),
        ];
        let ordered = if self.newest_first {
            base.push((" | Order: newest first"@, Tone::Active))
        } else {
            base
        };
        if !self.selected@.is_empty() {
            ordered.push((" | Sel: "@ + decimal_chars(self.selected@.len()), Tone::Selection))
        } else {
            ordered
        }
    }

    /// The status bar: the last write failure, or the key help.
    pub open spec fn status_spec(&self) -> (Seq<char>, Tone) {
        match self.error_msg {
            Some(message) => (" "@ + message@, Tone::Error),
            None => (
                " / filter  m minlen  M maxlen  Space select  d delete  Ctrl+d delete one  q quit"@,
                Tone::Hint,
            ),
        }
    }
}

fn segment(text: String, tone: Tone) -> (r: Segment)
    ensures
        r.text@ == text@,
        r.tone == tone,
{
    Segment { text, tone }
}

fn bound_segment(sign: &str, bound: Option<usize>, editing: bool) -> (r: Segment)
    requires
        sign@.len() == 1,
    ensures
        r.text@ == bound_text(sign@[0], bound),
        r.tone == bound_tone(editing, bound),
{
    let mut text = String::from_str(sign);
    match bound {
        Some(value) => {
            let digits = decimal(value);
            text.append(digits.as_str());
        },
        None => text.append("-"),
    }
    proof {
        reveal_strlit("-");
        assert(sign@ =~= seq![sign@[0]]);
    }
    let tone = if editing {
        Tone::Picked
    } else if bound.is_some() {
        Tone::Active
    } else {
        Tone::Idle
    };
    segment(text, tone)
}

impl App {
    /// The pieces of the filter bar, each with how it is shown.
    pub fn filter_bar(&self) -> (r: Vec<Segment>)
        ensures
            r@.map_values(|s: Segment| segment_view(s)) == self.filter_bar_spec(),
    {
        let mut out: Vec<Segment> = Vec::new();
        let mut text = String::from_str("Text: \"");
        text.append(self.text_filter.as_str());
        text.append("\" ");
        let text_tone = if self.mode == Mode::FilterText {
            Tone::Picked
        } else {
            Tone::Idle
        };
        out.push(segment(text, text_tone));
        out.push(segment(String::from_str("| Len: "), Tone::Idle));
        proof {
            reveal_strlit("\u{2265}");
            reveal_strlit("\u{2264}");
        }
        out.push(bound_segment("\u{2265}", self.min_length, self.mode == Mode::FilterMinLen));
        out.push(segment(String::from_str(" "), Tone::Idle));
        out.push(bound_segment("\u{2264}", self.max_length, self.mode == Mode::FilterMaxLen));
        out.push(segment(String::from_str(" | "), Tone::Idle));
        let mut counts = String::from_str("Entries: ");
        let shown = decimal(self.filtered.len());
        counts.append(shown.as_str());
        counts.append("/");
        let total = decimal(self.entries.len());
        counts.append(total.as_str());
        out.push(segment(counts, Tone::Count));
        if self.newest_first {
            out.push(segment(String::from_str(" | Order: newest first"), Tone::Active));
        }
        if !self.selected.is_empty() {
            let mut sel = String::from_str(" | Sel: ");
            let count = decimal(self.selected.len());
            sel.append(count.as_str());
            out.push(segment(sel, Tone::Selection));
        }
        proof {
            assert(out@.map_values(|s: Segment| segment_view(s)) =~= self.filter_bar_spec());
        }
        out
    }

    /// The status bar text and how it is shown.
    pub fn status_bar(&self) -> (r: Segment)
        ensures
            segment_view(r) == self.status_spec(),
    {
        match &self.error_msg {
            Some(message) => {
                let mut text = String::from_str(" ");
                text.append(message.as_str());
                segment(text, Tone::Error)
            },
            None => segment(
                String::from_str(
                    " / filter  m minlen  M maxlen  Space select  d delete  Ctrl+d delete one  q quit",
                ),
                Tone::Hint,
            ),
        }
    }
}

/// `n` blanks.
pub open spec fn blanks(n: nat) -> Seq<char> {
    Seq::new(n, |i: int| ' ')
}

fn push_blanks(text: &mut String, n: usize)
    ensures
        final(text)@ == old(text)@ + blanks(n as nat),
{
    let mut i: usize = 0;
    while i < n
        invariant
            i <= n,
            text@ == old(text)@ + blanks(i as nat),
        decreases n - i,
    {
        push_char(text, ' ');
        i = i + 1;
        assert(text@ =~= old(text)@ + blanks(i as nat));
    }
}

/// The text of one row of the list. The first row of an entry starts with
/// the selection marker, a blank, the entry's index right-aligned in
/// `index_width` columns and a gap of two blanks; the rows it wraps onto
/// start with as many blanks instead. The row's content follows.
pub open spec fn list_row_spec(
    first: bool,
    selected: bool,
    index: usize,
    index_width: usize,
    content: Seq<char>,
) -> Seq<char> {
    if first {
        let digits = decimal_chars(index as nat);
        let marker = if selected { "[\u{2022}]"@ } else { "[ ]"@ };
        let pad = if digits.len() < index_width { (index_width - digits.len()) as nat } else { 0 };
        marker + " "@ + blanks(pad) + digits + "  "@ + content
    } else {
        blanks(MARKER_WIDTH as nat) + blanks(index_width as nat) + blanks(GAP_WIDTH as nat) + content
    }
}

/// The text of one row of the list: see `list_row_spec`.
pub fn list_row(first: bool, selected: bool, index: usize, index_width: usize, content: &str) -> (r: String)
    ensures
        r@ == list_row_spec(first, selected, index, index_width, content@),
{
    let mut text = String::new();
    if first {
        let digits = decimal(index);
        let count = digits.unicode_len();
        text.append(if selected {
            "[\u{2022}]"
        } else {
            "[ ]"
        });
        text.append(" ");
        push_blanks(&mut text, if count < index_width { index_width - count } else { 0 });
        text.append(digits.as_str());
        text.append("  ");
    } else {
        push_blanks(&mut text, MARKER_WIDTH);
        push_blanks(&mut text, index_width);
        push_blanks(&mut text, GAP_WIDTH);
    }
    text.append(content);
    proof {
        assert(text@ =~= list_row_spec(first, selected, index, index_width, content@));
    }
    text
}

/// The command text of every row of an entry starts in the same column,
/// `MARKER_WIDTH + index_width + GAP_WIDTH`, as long as the index fits in
/// its column.
pub proof fn lemma_rows_align(selected: bool, index: usize, index_width: usize, content: Seq<char>)
    requires
        decimal_chars(index as nat).len() <= index_width,
    ensures
        list_row_spec(true, selected, index, index_width, content).len() == MARKER_WIDTH + index_width
            + GAP_WIDTH + content.len(),
        list_row_spec(false, selected, index, index_width, content).len() == MARKER_WIDTH + index_width
            + GAP_WIDTH + content.len(),
{
    reveal_strlit("[\u{2022}]");
    reveal_strlit("[ ]");
    reveal_strlit(" ");
    reveal_strlit("  ");
}

/// One line of the list area.
pub struct ListLine {
    /// The view position of the entry the line belongs to.
    pub position: usize,
    /// Whether that entry is selected.
    pub selected: bool,
    /// Whether that entry is under the cursor.
    pub cursor: bool,
    pub text: String,
}

impl App {
    /// The line the list area shows for row `row` of the entry at view
    /// position `position`: that row of the entry's command, sanitized and
    /// wrapped to the text width, behind the row prefix.
    pub open spec fn list_line_spec(&self, position: int, row: int) -> (usize, bool, bool, Seq<char>) {
        let index = self.filtered@[position];
        let selected = self.selected@.contains(index);
        let content = wrap(sanitized(self.entries@[index as int].command@), self.spec_text_width())[row];
        (
            position as usize,
            selected,
            position == self.cursor,
            list_row_spec(row == 0, selected, index, self.spec_index_width() as usize, content),
        )
    }

    /// The lines of the list area, top to bottom, one per row of the window.
    pub fn list_lines(&self) -> (r: Vec<ListLine>)
        requires
            self.wf(),
        ensures
            r@.len() == self.window_spec().len(),
            forall|k: int|
                0 <= k < r@.len() ==> (#[trigger] r@[k].position, r@[k].selected, r@[k].cursor, r@[k].text@)
                    == self.list_line_spec(self.window_spec()[k].0 as int, self.window_spec()[k].1 as int),
    {
        let window = self.window_rows();
        let width = self.text_width();
        let index_width = self.index_width();
        let mut out: Vec<ListLine> = Vec::new();
        let mut k: usize = 0;
        while k < window.len()
            invariant
                self.wf(),
                window@ == self.window_spec(),
                forall|j: int|
                    0 <= j < window@.len() ==> {
                        let shown = #[trigger] window@[j];
                        &&& shown.0 < self.filtered@.len()
                        &&& shown.1 < self.height_at(shown.0 as int)
                    },
                width == self.spec_text_width(),
                index_width == self.spec_index_width(),
                k <= window@.len(),
                out@.len() == k,
                forall|j: int|
                    0 <= j < k ==> (#[trigger] out@[j].position, out@[j].selected, out@[j].cursor, out@[j].text@)
                        == self.list_line_spec(window@[j].0 as int, window@[j].1 as int),
            decreases window@.len() - k,
        {
            let (position, row) = window[k];
            assert(window@[k as int] == (position, row));
            let index = self.filtered[position];
            let shown = sanitize(self.entries[index].command.as_str());
            let wrapped = rows(shown.as_str(), width);
            assert(wrapped@.map_values(|r: &str| r@).len() == wrapped@.len());
            let content = wrapped[row];
            assert(content@ == wrapped@.map_values(|r: &str| r@)[row as int]);
            let selected = self.selected.contains(&index);
            let line = ListLine {
                position,
                selected,
                cursor: position == self.cursor,
                text: list_row(row == 0, selected, index, index_width, content),
            };
            out.push(line);
            k = k + 1;
        }
        out
    }
}

proof fn lemma_decimal_chars_len(n: nat)
    ensures
        decimal_chars(n).len() == decimal_len(n),
    decreases n,
{
    if n >= 10 {
        lemma_decimal_chars_len(n / 10);
    }
}

proof fn lemma_decimal_len_monotone(a: nat, b: nat)
    requires
        a <= b,
    ensures
        decimal_len(a) <= decimal_len(b),
    decreases b,
{
    if a >= 10 {
        lemma_decimal_len_monotone(a / 10, b / 10);
    }
}

impl App {
    /// Every line of the list starts the command text in the same column,
    /// `prefix_width`, whether it is the first row of an entry or one it
    /// wraps onto: the index column is wide enough for every entry's index.
    pub proof fn lemma_list_lines_align(&self, position: int, row: int)
        requires
            self.wf(),
            0 <= position < self.filtered@.len(),
        ensures
            self.list_line_spec(position, row).3.len() == self.spec_prefix_width() + wrap(
                sanitized(self.entries@[self.filtered@[position] as int].command@),
                self.spec_text_width(),
            )[row].len(),
    {
        let index = self.filtered@[position];
        assert(self.entries@.len() == self.entries.len());
        let last = (self.entries@.len() - 1) as nat;
        lemma_decimal_chars_len(index as nat);
        lemma_decimal_len_monotone(index as nat, last);
        lemma_usize_digits(last as usize);
        let content = wrap(sanitized(self.entries@[index as int].command@), self.spec_text_width())[row];
        lemma_rows_align(self.selected@.contains(index), index, self.spec_index_width() as usize, content);
    }
}

} // verus!
