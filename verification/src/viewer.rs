//! Navigation state of the table view: which row is shown at the top, and
//! the find bar's query, last match and status line.

use vstd::prelude::*;
use crate::search::Direction;
use crate::selection::min_of;
use crate::lines::line_count;
use crate::table::{offset_row, search_outcome, sat_sub, TableModel};
use crate::text::{decimal, decimal_digits, push_chars};
use vstd::utf8::encode_utf8;

verus! {

/// Navigation keys pressed during a frame.
#[derive(Clone, Copy, Debug)]
pub struct NavKeys {
    pub page_down: bool,
    pub page_up: bool,
    pub home: bool,
    pub end: bool,
    pub arrow_down: bool,
    pub arrow_up: bool,
}

/// Top row after a frame of input: the wheel moves the view by
/// `wheel_steps` rows (up for a positive count); unless a text field has
/// focus, page keys move by a screenful, arrows by one row, Home to the top
/// and End to the last screenful; a pending jump to `scroll_to` wins; the
/// result is kept within `0..=max(total_rows - visible_full, 0)`.
pub open spec fn top_after(top: int, total_rows: int, visible_full: int, wheel_steps: int, keys: NavKeys,
    typing: bool, scroll_to: Option<usize>) -> int
{
    let max_top = sat_sub(total_rows, visible_full);
    let after_wheel = top - wheel_steps;
    let after_keys = if typing {
        after_wheel
    } else {
        let moved = after_wheel
            + (if keys.page_down { visible_full } else { 0 })
            - (if keys.page_up { visible_full } else { 0 })
            + (if keys.arrow_down { 1int } else { 0 })
            - (if keys.arrow_up { 1int } else { 0 });
        let homed = if keys.home { 0 } else { moved };
        if keys.end { max_top } else { homed }
    };
    let target = match scroll_to {
        Some(r) => min_of(r as int, max_top),
        None => after_keys,
    };
    if target < 0 { 0 } else if target > max_top { max_top } else { target }
}

/// The row shown at the top of the table after a frame of input, with
/// `visible_full` whole rows fitting in the view.
pub fn next_top_row(top: u64, total_rows: u64, visible_full: u64, wheel_steps: i64, keys: NavKeys, typing: bool,
    scroll_to: Option<usize>) -> (t: u64)
    ensures
        t == top_after(top as int, total_rows as int, visible_full as int, wheel_steps as int, keys, typing, scroll_to),
{
    let max_top: u64 = total_rows.saturating_sub(visible_full);
    let page = visible_full as i128;
    let mut t: i128 = top as i128 - wheel_steps as i128;
    if !typing {
        if keys.page_down {
            t = t + page;
        }
        if keys.page_up {
            t = t - page;
        }
        if keys.arrow_down {
            t = t + 1;
        }
        if keys.arrow_up {
            t = t - 1;
        }
        if keys.home {
            t = 0;
        }
        if keys.end {
            t = max_top as i128;
        }
    }
    if let Some(r) = scroll_to {
        t = if (r as i128) < (max_top as i128) { r as i128 } else { max_top as i128 };
    }
    if t < 0 {
        0
    } else if t > max_top as i128 {
        max_top
    } else {
        t as u64
    }
}

/// Number of rows drawn from row `top` on: the `visible_full` rows that fit
/// in the view plus two partly visible ones, never past the last row.
pub open spec fn window_rows(top: int, total_rows: int, visible_full: int) -> int {
    min_of(min_of(visible_full + 2, total_rows), total_rows - top)
}

/// How many rows to lay out and parse for a view whose top row is `top`.
pub fn rows_to_draw(top: u64, total_rows: u64, visible_full: u64) -> (n: u64)
    requires
        top <= total_rows,
        visible_full + 2 <= u64::MAX,
    ensures
        n == window_rows(top as int, total_rows as int, visible_full as int),
{
    let fit: u64 = if visible_full + 2 < total_rows { visible_full + 2 } else { total_rows };
    let left: u64 = total_rows - top;
    if fit < left { fit } else { left }
}

/// Row to jump to for a 1-based row number typed in "Go to": the row
/// before it, kept within the last row.
pub fn goto_target(requested: u64, rows: u64) -> (r: u64)
    ensures
        r == min_of(sat_sub(requested as int, 1), sat_sub(rows as int, 1)),
{
    let wanted = requested.saturating_sub(1);
    let last = rows.saturating_sub(1);
    if wanted < last { wanted } else { last }
}

/// Characters with the Unicode `White_Space` property, the ones `str::trim`
/// removes.
pub open spec fn is_white_space(c: char) -> bool {
    ||| '\u{9}' <= c <= '\u{d}'
    ||| c == ' ' || c == '\u{85}' || c == '\u{a0}' || c == '\u{1680}'
    ||| '\u{2000}' <= c <= '\u{200a}'
    ||| c == '\u{2028}' || c == '\u{2029}' || c == '\u{202f}' || c == '\u{205f}' || c == '\u{3000}'
}

/// `s` without its leading white space.
pub open spec fn trim_front(s: Seq<char>) -> Seq<char>
    decreases s.len(),
{
    if s.len() > 0 && is_white_space(s[0]) {
        trim_front(s.drop_first())
    } else {
        s
    }
}

/// `s` without its trailing white space.
pub open spec fn trim_back(s: Seq<char>) -> Seq<char>
    decreases s.len(),
{
    if s.len() > 0 && is_white_space(s.last()) {
        trim_back(s.drop_last())
    } else {
        s
    }
}

/// Every character of `d` is an ASCII decimal digit.
pub open spec fn all_digits(d: Seq<char>) -> bool {
    forall|j: int| 0 <= j < d.len() ==> '0' <= #[trigger] d[j] <= '9'
}

/// Value of the decimal digits `d`, most significant first.
pub open spec fn digits_value(d: Seq<char>) -> nat
    decreases d.len(),
{
    if d.len() == 0 {
        0
    } else {
        digits_value(d.drop_last()) * 10 + (d.last() as nat - 48) as nat
    }
}

/// The number typed in `s`: surrounding white space ignored, an optional
/// `+`, then one or more decimal digits whose value fits in 64 bits; `None`
/// for any other text.
pub open spec fn typed_number(s: Seq<char>) -> Option<nat> {
    let t = trim_back(trim_front(s));
    let d = if t.len() > 0 && t[0] == '+' { t.drop_first() } else { t };
    if d.len() > 0 && all_digits(d) && digits_value(d) <= u64::MAX {
        Some(digits_value(d))
    } else {
        None
    }
}

fn white_space(c: char) -> (b: bool)
    ensures
        b == is_white_space(c),
{
    ('\u{9}' <= c && c <= '\u{d}') || c == ' ' || c == '\u{85}' || c == '\u{a0}' || c == '\u{1680}'
        || ('\u{2000}' <= c && c <= '\u{200a}') || c == '\u{2028}' || c == '\u{2029}' || c == '\u{202f}'
        || c == '\u{205f}' || c == '\u{3000}'
}

/// Digits of a longer run of digits give at most its value.
proof fn lemma_digits_prefix(d: Seq<char>, k: int)
    requires
        0 <= k <= d.len(),
        all_digits(d),
    ensures
        digits_value(d.subrange(0, k)) <= digits_value(d),
    decreases d.len(),
{
    if k < d.len() {
        let e = d.drop_last();
        assert(all_digits(e)) by {
            assert forall|j: int| 0 <= j < e.len() implies '0' <= #[trigger] e[j] <= '9' by {
                assert(e[j] == d[j]);
            }
        }
        lemma_digits_prefix(e, k);
        assert(e.subrange(0, k) =~= d.subrange(0, k));
        assert('0' <= d[d.len() - 1]);
    } else {
        assert(d.subrange(0, k) =~= d);
    }
}

/// Read the row number typed in "Go to" the way `str::trim` followed by
/// `u64::from_str` reads it.
pub fn parse_row_number(text: &str) -> (r: Option<u64>)
    ensures
        match r {
            Some(n) => typed_number(text@) == Some(n as nat),
            None => typed_number(text@) is None,
        },
{
    let ghost s = text@;
    let n = text.unicode_len();
    let mut a: usize = 0;
    proof {
        assert(s.subrange(0, n as int) =~= s);
    }
    while a < n && white_space(text.get_char(a))
        invariant
            s == text@,
            n == s.len(),
            a <= n,
            trim_front(s) == trim_front(s.subrange(a as int, n as int)),
        decreases n - a,
    {
        proof {
            let sub = s.subrange(a as int, n as int);
            assert(sub[0] == s[a as int]);
            assert(sub.drop_first() =~= s.subrange(a + 1, n as int));
        }
        a = a + 1;
    }
    proof {
        assert(trim_front(s.subrange(a as int, n as int)) == s.subrange(a as int, n as int));
    }
    let mut b: usize = n;
    while b > a && white_space(text.get_char(b - 1))
        invariant
            s == text@,
            n == s.len(),
            a <= b <= n,
            trim_front(s) == s.subrange(a as int, n as int),
            trim_back(trim_front(s)) == trim_back(s.subrange(a as int, b as int)),
        decreases b - a,
    {
        proof {
            let sub = s.subrange(a as int, b as int);
            assert(sub.last() == s[b - 1]);
            assert(sub.drop_last() =~= s.subrange(a as int, b - 1));
        }
        b = b - 1;
    }
    let ghost t = s.subrange(a as int, b as int);
    proof {
        assert(trim_back(t) == t);
    }
    let start: usize = if b > a && text.get_char(a) == '+' { a + 1 } else { a };
    let ghost d = s.subrange(start as int, b as int);
    proof {
        if b > a && s[a as int] == '+' {
            assert(t.drop_first() =~= d);
        } else {
            assert(t =~= d);
        }
    }
    if start == b {
        return None;
    }
    let mut value: u64 = 0;
    let mut i: usize = start;
    while i < b
        invariant
            s == text@,
            n == s.len(),
            start < b <= n,
            start <= i <= b,
            d == s.subrange(start as int, b as int),
            typed_number(s) == (if all_digits(d) && digits_value(d) <= u64::MAX { Some(digits_value(d)) } else { None::<nat> }),
            all_digits(s.subrange(start as int, i as int)),
            value == digits_value(s.subrange(start as int, i as int)),
        decreases b - i,
    {
        let c = text.get_char(i);
        let ghost done = s.subrange(start as int, i as int);
        let ghost next = s.subrange(start as int, i + 1);
        proof {
            assert(next.drop_last() =~= done);
            assert(next.last() == c);
            assert(d[i - start] == c);
        }
        if !('0' <= c && c <= '9') {
            return None;
        }
        let digit: u64 = (c as u32 - 48) as u64;
        proof {
            assert(digits_value(next) == value * 10 + digit);
            assert(all_digits(next)) by {
                assert forall|j: int| 0 <= j < next.len() implies '0' <= #[trigger] next[j] <= '9' by {
                    if j < done.len() {
                        assert(next[j] == done[j]);
                    }
                }
            }
        }
        let scaled = match value.checked_mul(10) {
            Some(v) => v,
            None => {
                proof {
                    if all_digits(d) {
                        assert(next =~= d.subrange(0, i + 1 - start));
                        lemma_digits_prefix(d, i + 1 - start);
                    }
                }
                return None;
            },
        };
        value = match scaled.checked_add(digit) {
            Some(v) => v,
            None => {
                proof {
                    if all_digits(d) {
                        assert(next =~= d.subrange(0, i + 1 - start));
                        lemma_digits_prefix(d, i + 1 - start);
                    }
                }
                return None;
            },
        };
        i = i + 1;
    }
    proof {
        assert(s.subrange(start as int, i as int) =~= d);
    }
    Some(value)
}

/// Status line for a search hit in `row` (shown 1-based).
pub open spec fn hit_status(row: int, wrapped: bool) -> Seq<char> {
    "Row "@ + decimal((row + 1) as nat) + if wrapped { " (wrapped)"@ } else { Seq::empty() }
}

/// State of the find bar.
pub struct Finder {
    /// Current search query.
    pub query: String,
    /// Whether matching is case-sensitive (default: case-insensitive).
    pub case_sensitive: bool,
    /// Data row of the most recent match (used as the anchor for Next/Prev).
    pub last_match: Option<u64>,
    /// Short status message shown next to the search box.
    pub status: String,
}

impl Finder {
    /// An empty query, case-insensitive, no match yet.
    pub fn new() -> (f: Finder)
        ensures
            f.query@ == Seq::<char>::empty(),
            !f.case_sensitive,
            f.last_match is None,
            f.status@ == Seq::<char>::empty(),
    {
        Finder { query: String::new(), case_sensitive: false, last_match: None, status: String::new() }
    }

    /// Forget the last match and clear the status, so the next search starts
    /// from the top.
    pub fn restart(&mut self)
        ensures
            final(self).query == old(self).query,
            final(self).case_sensitive == old(self).case_sensitive,
            final(self).last_match is None,
            final(self).status@ == Seq::<char>::empty(),
    {
        self.last_match = None;
        self.status = String::new();
    }

    /// Run a search in the given direction over the rows of `model`, update
    /// the last match and the status message, and return the row to scroll
    /// to when a match is found. An empty query only clears the status.
    pub fn find(&mut self, model: &TableModel, data: &[u8], dir: Direction) -> (jump: Option<u64>)
        requires
            model.models(data@),
            dir == Direction::Forward ==> (old(self).last_match matches Some(a) ==> a < u64::MAX),
        ensures
            final(self).query == old(self).query,
            final(self).case_sensitive == old(self).case_sensitive,
            old(self).query@.len() == 0 ==> {
                &&& final(self).last_match == old(self).last_match
                &&& final(self).status@ == Seq::<char>::empty()
                &&& jump is None
            },
            old(self).query@.len() > 0 ==> match search_outcome(data@, model.spec_first_data_line(),
                encode_utf8(old(self).query@), old(self).last_match, dir, !old(self).case_sensitive) {
                Some((row, wrapped)) => {
                    &&& final(self).last_match == Some(row as u64)
                    &&& final(self).status@ == hit_status(row, wrapped)
                    &&& jump == Some(row as u64)
                },
                None => {
                    &&& final(self).last_match == old(self).last_match
                    &&& final(self).status@ == "No match"@
                    &&& jump is None
                },
            },
    {
        let query = self.query.as_str();
        if query.is_empty() {
            self.status = String::new();
            return None;
        }
        let needle = query.as_bytes();
        let ci = !self.case_sensitive;
        let anchor = self.last_match;
        proof {
            model.lemma_first_data_line(data@);
        }
        let result = model.search_rows(data, needle, anchor, dir, ci);
        match result {
            Some((row, wrapped)) => {
                proof {
                    lemma_found_row_bound(data@, model.spec_first_data_line(), needle@, anchor, dir, ci);
                    assert(data@.len() == data.len());
                }
                let mut status = String::new();
                status.append("Row ");
                let digits = decimal_digits(row + 1);
                push_chars(&mut status, &digits);
                if wrapped {
                    status.append(" (wrapped)");
                }
                self.last_match = Some(row);
                self.status = status;
                Some(row)
            },
            None => {
                self.status = "No match".to_owned();
                None
            },
        }
    }
}

/// A row found by a search is a row of the file, so the next row number
/// still fits in 64 bits.
pub proof fn lemma_found_row_bound(data: Seq<u8>, first_data_line: nat, needle: Seq<u8>, anchor: Option<u64>,
    dir: Direction, ci: bool)
    ensures
        search_outcome(data, first_data_line, needle, anchor, dir, ci) matches Some((row, w))
            ==> 0 <= row < line_count(data) <= data.len(),
{
    reveal(search_outcome);
    crate::lines::lemma_line_of_offset_bound(data, 0);
    assert forall|p: int| line_count(data) > 0 implies 0 <= #[trigger] offset_row(data, first_data_line, p) < line_count(data) by {
        crate::lines::lemma_line_of_offset_bound(data, p);
    }
}

} // verus!
