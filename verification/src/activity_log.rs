//! A scrolling log of activity texts. Each entry is wrapped to the log's
//! width; the oldest entries are dropped once the total number of wrapped
//! lines exceeds the log's height; drawing paints the last `height` lines
//! into the frame.

use vstd::prelude::*;

use std::collections::VecDeque;

use crate::frame::{lemma_row_major_in_bounds, lemma_row_major_order, Cell, Color, Frame};

verus! {

/// What `textwrap::wrap` returns for a text at a width, as a sequence of
/// lines. The result is a function of the text and the width alone.
pub uninterp spec fn wrapped_lines(text: Seq<char>, width: int) -> Seq<Seq<char>>;

/// Total number of wrapped lines over a sequence of messages.
pub open spec fn total_lines(msgs: Seq<Seq<Seq<char>>>) -> int
    decreases msgs.len(),
{
    if msgs.len() == 0 {
        0
    } else {
        msgs.first().len() + total_lines(msgs.drop_first())
    }
}

/// Messages after trimming: the oldest messages are dropped, one at a time,
/// until the total line count no longer exceeds `height`.
pub open spec fn trimmed(msgs: Seq<Seq<Seq<char>>>, height: int) -> Seq<Seq<Seq<char>>>
    decreases msgs.len(),
{
    if msgs.len() > 0 && total_lines(msgs) > height {
        trimmed(msgs.drop_first(), height)
    } else {
        msgs
    }
}

/// All lines of all messages, in order.
pub open spec fn flat_lines(msgs: Seq<Seq<Seq<char>>>) -> Seq<Seq<char>>
    decreases msgs.len(),
{
    if msgs.len() == 0 {
        Seq::empty()
    } else {
        flat_lines(msgs.drop_last()) + msgs.last()
    }
}

/// The lines a draw shows: the last `height` of all wrapped lines.
pub open spec fn visible_lines(msgs: Seq<Seq<Seq<char>>>, height: int) -> Seq<Seq<char>> {
    let flat = flat_lines(msgs);
    if flat.len() > height {
        flat.skip(flat.len() - height)
    } else {
        flat
    }
}

/// Lines joined back into one text with single spaces between them.
pub open spec fn join_lines(lines: Seq<Seq<char>>) -> Seq<char>
    decreases lines.len(),
{
    if lines.len() == 0 {
        Seq::empty()
    } else if lines.len() == 1 {
        lines[0]
    } else {
        join_lines(lines.drop_last()) + seq![' '] + lines.last()
    }
}

proof fn lemma_total_lines_nonneg(msgs: Seq<Seq<Seq<char>>>)
    ensures
        total_lines(msgs) >= 0,
    decreases msgs.len(),
{
    if msgs.len() > 0 {
        lemma_total_lines_nonneg(msgs.drop_first());
    }
}

/// One log entry, pre-wrapped to the width the log had when it was added.
struct Message {
    lines: Vec<String>,
}

impl Message {
    /// The entry's wrapped lines.
    spec fn lines_view(self) -> Seq<Seq<char>> {
        self.lines@.map_values(|l: String| l@)
    }

    fn new(text: &str, max_width: usize) -> (r: Self)
        ensures
            r.lines_view() == wrapped_lines(text@, max_width as int),
    {
        let wrapped_lines = ActivityLog::wrap_text(text, max_width);
        Message { lines: wrapped_lines }
    }
}

/// Join a message's lines with single spaces.
fn join_with_spaces(lines: &Vec<String>) -> (r: String)
    ensures
        r@ == join_lines(lines@.map_values(|l: String| l@)),
{
    let ghost lv = lines@.map_values(|l: String| l@);
    let mut s = String::new();
    let mut i: usize = 0;
    proof {
        assert(lv.take(0) =~= Seq::<Seq<char>>::empty());
    }
    while i < lines.len()
        invariant
            i <= lines@.len(),
            lv == lines@.map_values(|l: String| l@),
            s@ == join_lines(lv.take(i as int)),
        decreases lines@.len() - i,
    {
        proof {
            assert(lv.take(i + 1).drop_last() =~= lv.take(i as int));
            assert(lv.take(i + 1).last() == lv[i as int]);
        }
        if i > 0 {
            s.append(" ");
            proof {
                reveal_strlit(" ");
                assert(" "@ =~= seq![' ']);
            }
        }
        s.append(lines[i].as_str());
        proof {
            if i == 0 {
                assert(lv.take(1).len() == 1);
                assert(join_lines(lv.take(1)) == lv[0]);
                assert(s@ =~= lv[0]);
            }
        }
        i = i + 1;
    }
    proof {
        assert(lv.take(lines@.len() as int) =~= lv);
    }
    s
}

/// Manages and displays a list of activity texts.
pub struct ActivityLog {
    entries: VecDeque<Message>,
    x: u16,
    y: u16,
    width: u16,
    height: u16,
}

impl ActivityLog {
    pub closed spec fn spec_x(self) -> int {
        self.x as int
    }

    pub closed spec fn spec_y(self) -> int {
        self.y as int
    }

    pub closed spec fn spec_width(self) -> int {
        self.width as int
    }

    pub closed spec fn spec_height(self) -> int {
        self.height as int
    }

    /// The log's entries: for each message, its wrapped lines.
    pub closed spec fn log_view(self) -> Seq<Seq<Seq<char>>> {
        self.entries@.map_values(|m: Message| m.lines_view())
    }

    /// The position and dimensions are unchanged.
    pub open spec fn same_placement(self, other: ActivityLog) -> bool {
        self.spec_x() == other.spec_x() && self.spec_y() == other.spec_y() && self.spec_width()
            == other.spec_width() && self.spec_height() == other.spec_height()
    }

    /// Relies on `textwrap::wrap`: wraps a text into lines not exceeding the
    /// given width (words longer than the width excepted); the result depends
    /// on the text and the width alone.
    #[verifier::external_body]
    fn wrap_text(text: &str, max_width: usize) -> (r: Vec<String>)
        ensures
            r@.map_values(|l: String| l@) == wrapped_lines(text@, max_width as int),
    {
        textwrap::wrap(text, max_width).iter().map(|line| line.to_string()).collect()
    }

    /// A new, empty log with the given position and dimensions.
    pub fn new(x: u16, y: u16, width: u16, height: u16) -> (r: Self)
        ensures
            r.spec_x() == x,
            r.spec_y() == y,
            r.spec_width() == width,
            r.spec_height() == height,
            r.log_view() == Seq::<Seq<Seq<char>>>::empty(),
    {
        let r = ActivityLog { entries: VecDeque::new(), x, y, width, height };
        proof {
            assert(r.log_view() =~= Seq::<Seq<Seq<char>>>::empty());
        }
        r
    }

    /// Whether the entries hold more wrapped lines than the log is tall.
    fn exceeds_height(&self) -> (r: bool)
        ensures
            r == (total_lines(self.log_view()) > self.spec_height()),
    {
        let ghost lv = self.log_view();
        let mut remaining: u16 = self.height;
        let mut idx: usize = 0;
        proof {
            assert(lv.skip(0) =~= lv);
        }
        while idx < self.entries.len()
            invariant
                idx <= self.entries@.len(),
                lv == self.log_view(),
                lv.len() == self.entries@.len(),
                (total_lines(lv) > self.spec_height()) == (total_lines(lv.skip(idx as int))
                    > remaining as int),
            decreases self.entries@.len() - idx,
        {
            let l = self.entries[idx].lines.len();
            proof {
                assert(lv.skip(idx as int).drop_first() =~= lv.skip(idx + 1));
                assert(lv.skip(idx as int).first() == lv[idx as int]);
                assert(lv[idx as int].len() == self.entries@[idx as int].lines@.len());
                lemma_total_lines_nonneg(lv.skip(idx + 1));
            }
            if l > remaining as usize {
                return true;
            }
            remaining = remaining - (l as u16);
            idx = idx + 1;
        }
        proof {
            assert(lv.skip(lv.len() as int) =~= Seq::<Seq<Seq<char>>>::empty());
        }
        false
    }

    /// Drop the oldest entries until the total line count fits the height.
    fn trim_entries(&mut self)
        ensures
            final(self).same_placement(*old(self)),
            final(self).log_view() == trimmed(old(self).log_view(), old(self).spec_height()),
    {
        while self.exceeds_height()
            invariant
                self.same_placement(*old(self)),
                trimmed(self.log_view(), self.spec_height()) == trimmed(
                    old(self).log_view(),
                    old(self).spec_height(),
                ),
            decreases self.entries@.len(),
        {
            let ghost pre = self.log_view();
            proof {
                if self.entries@.len() == 0 {
                    assert(total_lines(pre) == 0);
                    assert(false);
                }
            }
            match self.entries.pop_front() {
                Some(_) => {
                    proof {
                        assert(self.log_view() =~= pre.drop_first());
                    }
                },
                None => {},
            }
        }
    }

    /// Wrap `text` to the log's width and append it, then trim the oldest
    /// entries to the height.
    pub fn add_entry(&mut self, text: &str)
        ensures
            final(self).same_placement(*old(self)),
            final(self).log_view() == trimmed(
                old(self).log_view().push(wrapped_lines(text@, old(self).spec_width())),
                old(self).spec_height(),
            ),
    {
        let message = Message::new(text, self.width as usize);
        self.entries.push_back(message);
        proof {
            assert(self.log_view() =~= old(self).log_view().push(
                wrapped_lines(text@, old(self).spec_width()),
            ));
        }
        self.trim_entries();
    }

    /// Move and resize the log: every message is rewrapped to the new width
    /// (its lines joined with single spaces first), and the result is trimmed
    /// to the new height. Call this when the window is resized.
    pub fn update_dimensions(&mut self, x: u16, y: u16, width: u16, height: u16)
        ensures
            final(self).spec_x() == x,
            final(self).spec_y() == y,
            final(self).spec_width() == width,
            final(self).spec_height() == height,
            final(self).log_view() == trimmed(
                old(self).log_view().map_values(
                    |m: Seq<Seq<char>>| wrapped_lines(join_lines(m), width as int),
                ),
                height as int,
            ),
    {
        self.x = x;
        self.y = y;
        self.width = width;
        self.height = height;

        let ghost pre = old(self).log_view();

        let mut rewrapped: VecDeque<Message> = VecDeque::new();
        let mut mi: usize = 0;
        proof {
            assert(rewrapped@.map_values(|m: Message| m.lines_view()) =~= pre.take(0).map_values(
                |m: Seq<Seq<char>>| wrapped_lines(join_lines(m), width as int),
            ));
        }
        while mi < self.entries.len()
            invariant
                mi <= self.entries@.len(),
                self.entries@ == old(self).entries@,
                pre == old(self).log_view(),
                pre.len() == self.entries@.len(),
                self.width == width,
                rewrapped@.len() == mi,
                rewrapped@.map_values(|m: Message| m.lines_view()) == pre.take(
                    mi as int,
                ).map_values(|m: Seq<Seq<char>>| wrapped_lines(join_lines(m), width as int)),
            decreases self.entries@.len() - mi,
        {
            let ghost old_rewrapped = rewrapped@;
            let joined = join_with_spaces(&self.entries[mi].lines);
            let rewrapped_message = Message::new(joined.as_str(), width as usize);
            rewrapped.push_back(rewrapped_message);
            proof {
                assert(joined@ == join_lines(pre[mi as int]));
                assert(rewrapped@.len() == mi + 1);
                assert(rewrapped@[mi as int] == rewrapped_message);
                assert(rewrapped_message.lines_view() == wrapped_lines(
                    join_lines(pre[mi as int]),
                    width as int,
                ));
                assert(pre.take(mi + 1)[mi as int] == pre[mi as int]);
                assert forall|k: int| 0 <= k < mi implies #[trigger] rewrapped@[k].lines_view()
                    == wrapped_lines(join_lines(pre[k]), width as int) by {
                    assert(rewrapped@[k] == old_rewrapped[k]);
                    assert(old_rewrapped.map_values(|m: Message| m.lines_view())[k] == pre.take(
                        mi as int,
                    ).map_values(
                        |m: Seq<Seq<char>>| wrapped_lines(join_lines(m), width as int),
                    )[k]);
                    assert(pre.take(mi as int)[k] == pre[k]);
                }
                assert(rewrapped@.map_values(|m: Message| m.lines_view()) =~= pre.take(
                    mi + 1,
                ).map_values(|m: Seq<Seq<char>>| wrapped_lines(join_lines(m), width as int)));
            }
            mi = mi + 1;
        }
        self.entries = rewrapped;
        proof {
            assert(pre.take(pre.len() as int) =~= pre);
            assert(self.log_view() == pre.map_values(
                |m: Seq<Seq<char>>| wrapped_lines(join_lines(m), width as int),
            ));
        }
        self.trim_entries();
    }

    /// Draw the log onto the frame at the current position and dimensions:
    /// the last `height` wrapped lines, topmost first, each row written in
    /// white starting at column `x` and clipped at the frame's right edge.
    /// Rows outside the log's strip, and the cells of a written row outside
    /// its text, keep their old content.
    pub fn draw(&self, frame: &mut Frame)
        requires
            old(frame).wf(),
        ensures
            final(frame).wf(),
            final(frame).same_shape(*old(frame)),
            forall|r: int, c: int|
                {
                    let visible = visible_lines(self.log_view(), self.spec_height());
                    0 <= r < old(frame).spec_height() && self.spec_y() <= r < self.spec_y()
                        + visible.len() && self.spec_x() <= c < old(frame).spec_width() && c
                        - self.spec_x() < visible[r - self.spec_y()].len() ==> #[trigger] final(frame).cell_at(r, c) == (Cell {
                        ch: visible[r - self.spec_y()][c - self.spec_x()],
                        fg: Some(Color::White),
                        bg: None,
                    })
                },
            forall|r: int, c: int|
                {
                    let visible = visible_lines(self.log_view(), self.spec_height());
                    0 <= r < old(frame).spec_height() && 0 <= c < old(frame).spec_width() && (r
                        < self.spec_y() || r >= self.spec_y() + visible.len()) ==> #[trigger] final(frame).cell_at(r, c) == old(frame).cell_at(r, c)
                },
            forall|r: int, c: int|
                {
                    let visible = visible_lines(self.log_view(), self.spec_height());
                    0 <= r < old(frame).spec_height() && 0 <= c < old(frame).spec_width()
                        && self.spec_y() <= r < self.spec_y() + visible.len() && (c < self.spec_x()
                        || c >= old(frame).text_end(
                        self.spec_x(),
                        visible[r - self.spec_y()].len() as int,
                    )) ==> #[trigger] final(frame).cell_at(r, c) == old(frame).cell_at(r, c)
                },
    {
        let ghost visible = visible_lines(self.log_view(), self.spec_height());
        let ghost fw = old(frame).spec_width();
        let ghost fh = old(frame).spec_height();

        // Collect all lines from all messages.
        let mut all_lines: Vec<String> = Vec::new();
        let mut mi: usize = 0;
        proof {
            assert(self.log_view().take(0) =~= Seq::<Seq<Seq<char>>>::empty());
            assert(all_lines@.map_values(|l: String| l@) =~= flat_lines(
                self.log_view().take(0),
            ));
        }
        while mi < self.entries.len()
            invariant
                mi <= self.entries@.len(),
                self.log_view().len() == self.entries@.len(),
                all_lines@.map_values(|l: String| l@) == flat_lines(self.log_view().take(mi as int)),
                all_lines@.len() == flat_lines(self.log_view().take(mi as int)).len(),
            decreases self.entries@.len() - mi,
        {
            let ghost flat_before = flat_lines(self.log_view().take(mi as int));
            let msg = &self.entries[mi];
            let mut li: usize = 0;
            while li < msg.lines.len()
                invariant
                    li <= msg.lines@.len(),
                    msg == &self.entries@[mi as int],
                    mi < self.entries@.len(),
                    flat_before == flat_lines(self.log_view().take(mi as int)),
                    all_lines@.map_values(|l: String| l@) == flat_before
                        + msg.lines_view().take(li as int),
                    all_lines@.len() == flat_before.len() + li,
                decreases msg.lines@.len() - li,
            {
                let ghost old_all = all_lines@;
                let line = msg.lines[li].clone();
                all_lines.push(line);
                proof {
                    assert(msg.lines_view().take(li + 1).drop_last() =~= msg.lines_view().take(
                        li as int,
                    ));
                    assert(msg.lines_view().take(li + 1).last() == msg.lines_view()[li as int]);
                    assert(line@ == msg.lines_view()[li as int]);
                    assert forall|k: int| 0 <= k < all_lines@.len() implies (#[trigger]
                    all_lines@[k])@ == (flat_before + msg.lines_view().take(li + 1))[k] by {
                        if k < old_all.len() {
                            assert(all_lines@[k] == old_all[k]);
                            assert(old_all.map_values(|l: String| l@)[k] == old_all[k]@);
                            assert((flat_before + msg.lines_view().take(li as int))[k]
                                == (flat_before + msg.lines_view().take(li + 1))[k]);
                        } else {
                            assert(all_lines@[k] == line);
                        }
                    }
                    assert(all_lines@.map_values(|l: String| l@) =~= flat_before
                        + msg.lines_view().take(li + 1));
                }
                li = li + 1;
            }
            proof {
                assert(msg.lines_view().take(msg.lines@.len() as int) =~= msg.lines_view());
                assert(self.log_view().take(mi + 1).drop_last() =~= self.log_view().take(
                    mi as int,
                ));
                assert(self.log_view().take(mi + 1).last() == self.log_view()[mi as int]);
                assert(self.log_view()[mi as int] == msg.lines_view());
                assert(flat_lines(self.log_view().take(mi + 1)) == flat_before
                    + msg.lines_view());
            }
            mi = mi + 1;
        }
        proof {
            assert(self.log_view().take(self.entries@.len() as int) =~= self.log_view());
        }

        // Take the last `height` lines to display.
        let total = all_lines.len();
        let start = if total > self.height as usize {
            total - self.height as usize
        } else {
            0
        };
        proof {
            let flat = flat_lines(self.log_view());
            if flat.len() > self.spec_height() {
                assert(visible == flat.skip(flat.len() - self.spec_height()));
            } else {
                assert(flat.skip(0) =~= flat);
            }
            assert(visible == flat.skip(start as int));
            assert(visible.len() == total - start);
            assert forall|t: int| 0 <= t < visible.len() implies #[trigger] visible[t]
                == all_lines@[start + t]@ by {
                assert(visible[t] == flat_lines(self.log_view())[start + t]);
                assert(all_lines@.map_values(|l: String| l@)[start + t] == all_lines@[start
                    + t]@);
            }
        }

        // Draw each line sequentially.
        let mut i: usize = start;
        while i < total
            invariant
                start <= i <= total,
                total == all_lines@.len(),
                visible == visible_lines(self.log_view(), self.spec_height()),
                visible.len() == total - start,
                forall|t: int| 0 <= t < visible.len() ==> #[trigger] visible[t] == all_lines@[start
                    + t]@,
                frame.wf(),
                frame.same_shape(*old(frame)),
                fw == old(frame).spec_width(),
                fh == old(frame).spec_height(),
                forall|r: int, c: int|
                    0 <= r < fh && self.spec_y() <= r < self.spec_y() + (i - start) && self.spec_x()
                        <= c < fw && c - self.spec_x() < visible[r - self.spec_y()].len()
                        ==> #[trigger] frame.cell_at(r, c) == (Cell {
                        ch: visible[r - self.spec_y()][c - self.spec_x()],
                        fg: Some(Color::White),
                        bg: None,
                    }),
                forall|r: int, c: int|
                    0 <= r < fh && 0 <= c < fw && (r < self.spec_y() || r >= self.spec_y() + (i
                        - start)) ==> #[trigger] frame.cell_at(r, c) == old(frame).cell_at(r, c),
                forall|r: int, c: int|
                    0 <= r < fh && 0 <= c < fw && self.spec_y() <= r < self.spec_y() + (i - start)
                        && (c < self.spec_x() || c >= old(frame).text_end(
                        self.spec_x(),
                        visible[r - self.spec_y()].len() as int,
                    )) ==> #[trigger] frame.cell_at(r, c) == old(frame).cell_at(r, c),
            decreases total - i,
        {
            let offset = i - start;
            let ghost pre = *frame;
            let ghost r0 = self.spec_y() + (i - start);
            if offset <= 0xFFFF - (self.y as usize) {
                let current_y = self.y + (offset as u16);
                frame.draw_text(self.x, current_y, all_lines[i].as_str(), Some(Color::White), None);
                proof {
                    let text = all_lines@[i as int]@;
                    let x0 = self.spec_x();
                    let stop = pre.text_end(x0, text.len() as int);
                    assert(text == visible[i - start]);
                    assert(frame.same_shape(pre));
                    assert(stop <= fw);
                    assert forall|r: int, c: int|
                        0 <= r < fh && 0 <= c < fw && r != r0 implies #[trigger] frame.cell_at(
                        r,
                        c,
                    ) == pre.cell_at(r, c) by {
                        let k = r * fw + c;
                        lemma_row_major_in_bounds(fw, fh, r, c);
                        if r < r0 {
                            lemma_row_major_order(fw, r, c + 1, r0, x0);
                            assert(k < r0 * fw + x0);
                        } else {
                            lemma_row_major_order(fw, r0, stop, r, c);
                            assert(k >= r0 * fw + stop);
                        }
                        assert(frame.cells()[k] == pre.cells()[k]);
                        assert(frame.cell_at(r, c) == frame.cells()[k]);
                        assert(pre.cell_at(r, c) == pre.cells()[k]);
                    }
                    if r0 < fh {
                        assert forall|c: int|
                            self.spec_x() <= c < fw && c - self.spec_x()
                                < text.len() implies #[trigger] frame.cell_at(r0, c) == (Cell {
                            ch: text[c - self.spec_x()],
                            fg: Some(Color::White),
                            bg: None,
                        }) by {
                            assert(frame.cells()[r0 * fw + self.spec_x() + (c - self.spec_x())]
                                == (Cell {
                                ch: text[c - self.spec_x()],
                                fg: Some(Color::White),
                                bg: None,
                            }));
                        }
                        assert forall|c: int|
                            0 <= c < fw && (c < self.spec_x() || c >= stop) implies #[trigger]
                        frame.cell_at(r0, c) == pre.cell_at(r0, c) by {
                            lemma_row_major_in_bounds(fw, fh, r0, c);
                        }
                    }
                }
            } else {
                proof {
                    assert(r0 > 0xFFFF);
                    assert(r0 >= fh);
                }
            }
            i = i + 1;
        }
    }

    /// Forget every entry.
    pub fn clear(&mut self)
        ensures
            final(self).same_placement(*old(self)),
            final(self).log_view() == Seq::<Seq<Seq<char>>>::empty(),
    {
        self.entries.clear();
        proof {
            assert(self.log_view() =~= Seq::<Seq<Seq<char>>>::empty());
        }
    }
}

} // verus!
