//! The text form of the settings: one `key=value` pair per line, with blank
//! lines and `#` comments. Reading takes the pairs out of a text; writing
//! merges new values into a text and leaves every other line as it was.

use vstd::prelude::*;
use crate::settings::{distinct_keys, lookup, put, Pair, SettingsMap};
use crate::text::{find_char, index_of, push_range, string_of_range, to_chars, trim, trim_range};

verus! {

/// `s` without one carriage return at its end.
pub open spec fn strip_cr(s: Seq<char>) -> Seq<char> {
    if s.len() > 0 && s.last() == '\r' {
        s.drop_last()
    } else {
        s
    }
}

/// The lines of `s`. A line ends at a line feed, or at the end of the text;
/// a carriage return right before the line feed belongs to the line ending.
/// Nothing follows the last line feed of a text that ends in one.
pub open spec fn lines_of(s: Seq<char>) -> Seq<Seq<char>>
    decreases s.len(),
{
    let nl = index_of(s, '\n');
    if s.len() == 0 {
        Seq::empty()
    } else if nl >= s.len() {
        seq![s]
    } else {
        seq![strip_cr(s.take(nl as int))] + lines_of(s.skip(nl as int + 1))
    }
}

/// The setting that a line holds. Blank lines, comments and lines without
/// `=` hold none. The key is what stands before the first `=`, the value
/// what stands after it, both without surrounding white space.
pub open spec fn entry_of(line: Seq<char>) -> Option<Pair> {
    let t = trim(line);
    let eq = index_of(t, '=');
    if t.len() == 0 || t[0] == '#' || eq >= t.len() {
        None
    } else {
        Some((trim(t.take(eq as int)), trim(t.skip(eq as int + 1))))
    }
}

/// The key that a line sets, if it sets one.
pub open spec fn key_of(line: Seq<char>) -> Option<Seq<char>> {
    match entry_of(line) {
        Some(entry) => Some(entry.0),
        None => None,
    }
}

/// The settings that `lines` hold, taken line by line from the first to the
/// last: a key that comes again keeps its place and takes the later value.
pub open spec fn parsed(lines: Seq<Seq<char>>) -> Seq<Pair>
    decreases lines.len(),
{
    if lines.len() == 0 {
        Seq::empty()
    } else {
        let before = parsed(lines.drop_last());
        match entry_of(lines.last()) {
            Some(entry) => put(before, entry.0, entry.1),
            None => before,
        }
    }
}

/// The place where the line that starts at `chars[from]` ends, and the place
/// where the next line starts: right after the line feed, or at the end of
/// the text where no line feed follows.
pub fn next_line(chars: &Vec<char>, from: usize) -> (r: (usize, usize))
    requires
        from < chars@.len(),
    ensures
        from <= r.0 <= r.1 <= chars@.len(),
        from < r.1,
        r.1 == if from + index_of(chars@.skip(from as int), '\n') < chars@.len() {
            from + index_of(chars@.skip(from as int), '\n') + 1
        } else {
            chars@.len() as int
        },
        lines_of(chars@.skip(from as int)) == seq![chars@.subrange(from as int, r.0 as int)]
            + lines_of(chars@.skip(r.1 as int)),
{
    let len = chars.len();
    let nl = find_char(chars, from, len, '\n');
    let ghost rest = chars@.skip(from as int);
    if nl == len {
        (len, len)
    } else {
        let end = if nl > from && chars[nl - 1] == '\r' {
            nl - 1
        } else {
            nl
        };
        assert(rest.take(nl - from) =~= chars@.subrange(from as int, nl as int));
        assert(strip_cr(chars@.subrange(from as int, nl as int)) =~= chars@.subrange(
            from as int,
            end as int,
        ));
        assert(rest.skip(nl - from + 1) =~= chars@.skip(nl + 1));
        (end, nl + 1)
    }
}

/// The bounds of a key and of a value in `chars`.
pub struct EntryBounds {
    pub key_from: usize,
    pub key_to: usize,
    pub value_from: usize,
    pub value_to: usize,
}

/// Where the key and the value of the line `chars[from..to]` stand, if the
/// line holds a setting.
pub fn entry_bounds(chars: &Vec<char>, from: usize, to: usize) -> (out: Option<EntryBounds>)
    requires
        from <= to <= chars@.len(),
    ensures
        match out {
            Some(b) => {
                &&& from <= b.key_from <= b.key_to <= b.value_from <= b.value_to <= to
                &&& entry_of(chars@.subrange(from as int, to as int)) == Some(
                    (
                        chars@.subrange(b.key_from as int, b.key_to as int),
                        chars@.subrange(b.value_from as int, b.value_to as int),
                    ),
                )
            },
            None => entry_of(chars@.subrange(from as int, to as int)).is_none(),
        },
{
    let (a, b) = trim_range(chars, from, to);
    let ghost t = chars@.subrange(a as int, b as int);
    if a == b || chars[a] == '#' {
        return None;
    }
    let eq = find_char(chars, a, b, '=');
    if eq == b {
        return None;
    }
    let (key_from, key_to) = trim_range(chars, a, eq);
    let (value_from, value_to) = trim_range(chars, eq + 1, b);
    assert(t.take(eq - a) =~= chars@.subrange(a as int, eq as int));
    assert(t.skip(eq - a + 1) =~= chars@.subrange(eq + 1, b as int));
    Some(EntryBounds { key_from, key_to, value_from, value_to })
}

/// Reads the settings out of the text of a settings file.
pub fn parse_settings(content: &str) -> (out: SettingsMap)
    ensures
        out.pairs() == parsed(lines_of(content@)),
        distinct_keys(out.pairs()),
{
    let chars = to_chars(content);
    let mut out = SettingsMap::new();
    let ghost mut done: Seq<Seq<char>> = Seq::empty();
    let mut at: usize = 0;
    assert(chars@.skip(0) =~= chars@);
    while at < chars.len()
        invariant
            at <= chars@.len(),
            lines_of(chars@) == done + lines_of(chars@.skip(at as int)),
            out.pairs() == parsed(done),
            distinct_keys(out.pairs()),
        decreases chars@.len() - at,
    {
        let (end, next) = next_line(&chars, at);
        let ghost line = chars@.subrange(at as int, end as int);
        match entry_bounds(&chars, at, end) {
            Some(b) => {
                let key = string_of_range(&chars, b.key_from, b.key_to);
                let value = string_of_range(&chars, b.value_from, b.value_to);
                out.insert(key, value);
            },
            None => {},
        }
        proof {
            assert(done.push(line).drop_last() =~= done);
            done = done.push(line);
        }
        at = next;
    }
    out
}

/// The line that sets `key` to `value`.
pub open spec fn assignment(key: Seq<char>, value: Seq<char>) -> Seq<char> {
    key + seq!['='] + value
}

/// What becomes of a line when `updates` are merged in: a line that sets a
/// key of `updates` becomes the assignment of the new value to that key, and
/// any other line stays as it is.
pub open spec fn merged_line(line: Seq<char>, updates: Seq<Pair>) -> Seq<char> {
    match key_of(line) {
        Some(key) => match lookup(updates, key) {
            Some(value) => assignment(key, value),
            None => line,
        },
        None => line,
    }
}

/// Whether one of `lines` sets `key`.
pub open spec fn mentions(lines: Seq<Seq<char>>, key: Seq<char>) -> bool {
    exists|i: int| 0 <= i < lines.len() && #[trigger] key_of(lines[i]) == Some(key)
}

/// The lines of a file after `updates` were merged in, each in its place.
pub open spec fn rewritten(lines: Seq<Seq<char>>, updates: Seq<Pair>) -> Seq<Seq<char>> {
    lines.map_values(|line: Seq<char>| merged_line(line, updates))
}

/// The test for the settings whose keys none of `lines` sets.
pub open spec fn unset_in(lines: Seq<Seq<char>>) -> spec_fn(Pair) -> bool {
    |pair: Pair| !mentions(lines, pair.0)
}

/// The settings of `updates` whose keys none of `lines` sets, in their order.
pub open spec fn fresh(lines: Seq<Seq<char>>, updates: Seq<Pair>) -> Seq<Pair> {
    updates.filter(unset_in(lines))
}

/// The lines that a merge adds at the end: one assignment for each setting
/// whose key no line of the file sets.
pub open spec fn added(lines: Seq<Seq<char>>, updates: Seq<Pair>) -> Seq<Seq<char>> {
    fresh(lines, updates).map_values(|pair: Pair| assignment(pair.0, pair.1))
}

/// The text that holds `lines`, each followed by a line feed.
pub open spec fn render(lines: Seq<Seq<char>>) -> Seq<char>
    decreases lines.len(),
{
    if lines.len() == 0 {
        Seq::empty()
    } else {
        render(lines.drop_last()) + lines.last() + seq!['\n']
    }
}

/// The lines that a merge of `updates` into `content` writes: those of
/// `content`, each in its place, and then the added ones.
pub open spec fn merged_lines(content: Seq<char>, updates: Seq<Pair>) -> Seq<Seq<char>> {
    rewritten(lines_of(content), updates) + added(lines_of(content), updates)
}

/// The text of a settings file after `updates` were merged into `content`.
pub open spec fn merged(content: Seq<char>, updates: Seq<Pair>) -> Seq<char> {
    render(merged_lines(content, updates))
}

/// One more line sets the keys that the lines before it set, and its own.
pub proof fn lemma_mentions_push(lines: Seq<Seq<char>>, line: Seq<char>, key: Seq<char>)
    ensures
        mentions(lines.push(line), key) <==> mentions(lines, key) || key_of(line) == Some(key),
{
    let more = lines.push(line);
    if mentions(lines, key) {
        let i = choose|i: int| 0 <= i < lines.len() && #[trigger] key_of(lines[i]) == Some(key);
        assert(more[i] == lines[i]);
    }
    if key_of(line) == Some(key) {
        assert(more[lines.len() as int] == line);
    }
    if mentions(more, key) {
        let i = choose|i: int| 0 <= i < more.len() && #[trigger] key_of(more[i]) == Some(key);
        if i < lines.len() {
            assert(more[i] == lines[i]);
        }
    }
}

/// Rendering one more line appends the line and a line feed.
pub proof fn lemma_render_push(lines: Seq<Seq<char>>, line: Seq<char>)
    ensures
        render(lines.push(line)) == render(lines) + line + seq!['\n'],
{
    assert(lines.push(line).drop_last() =~= lines);
}

/// Merges `updates` into the text of a settings file. A line that sets one
/// of the keys is rewritten with the new value, in its place; every other
/// line passes through; settings whose keys the file does not set yet are
/// added at the end, in the order of `updates`.
pub fn merge_settings(content: &str, updates: &SettingsMap) -> (out: String)
    ensures
        out@ == merged(content@, updates.pairs()),
{
    let chars = to_chars(content);
    let count = updates.len();
    let ghost ups = updates.pairs();
    let mut out = String::new();
    let mut touched: Vec<bool> = Vec::new();
    while touched.len() < count
        invariant
            touched@.len() <= count,
            forall|j: int| 0 <= j < touched@.len() ==> !touched@[j],
        decreases count - touched@.len(),
    {
        touched.push(false);
    }
    let ghost mut done: Seq<Seq<char>> = Seq::empty();
    let mut at: usize = 0;
    assert(chars@.skip(0) =~= chars@);
    while at < chars.len()
        invariant
            at <= chars@.len(),
            ups == updates.pairs(),
            count == ups.len(),
            distinct_keys(ups),
            lines_of(chars@) == done + lines_of(chars@.skip(at as int)),
            out@ == render(rewritten(done, ups)),
            touched@.len() == count,
            forall|j: int| 0 <= j < count ==> (touched@[j] <==> mentions(done, #[trigger] ups[j].0)),
        decreases chars@.len() - at,
    {
        let (end, next) = next_line(&chars, at);
        let ghost line = chars@.subrange(at as int, end as int);
        let mut place: usize = count;
        let mut key = String::new();
        match entry_bounds(&chars, at, end) {
            Some(b) => {
                key = string_of_range(&chars, b.key_from, b.key_to);
                place = updates.position(&key);
            },
            None => {},
        }
        proof {
            crate::settings::lemma_position_of(ups, key@);
        }
        if place < count {
            out.append(key.as_str());
            out.push('=');
            out.append(updates.value_at(place).as_str());
            touched.set(place, true);
        } else {
            push_range(&mut out, &chars, at, end);
        }
        out.push('\n');
        proof {
            assert(rewritten(done.push(line), ups) =~= rewritten(done, ups).push(
                merged_line(line, ups),
            ));
            lemma_render_push(rewritten(done, ups), merged_line(line, ups));
            assert forall|j: int| 0 <= j < count implies (touched@[j] <==> mentions(
                done.push(line),
                #[trigger] ups[j].0,
            )) by {
                lemma_mentions_push(done, line, ups[j].0);
            }
            done = done.push(line);
        }
        at = next;
    }
    proof {
        reveal(Seq::filter);
    }
    let mut j: usize = 0;
    while j < count
        invariant
            j <= count,
            ups == updates.pairs(),
            count == ups.len(),
            touched@.len() == count,
            forall|k: int| 0 <= k < count ==> (touched@[k] <==> mentions(done, #[trigger] ups[k].0)),
            out@ == render(rewritten(done, ups) + added(done, ups.take(j as int))),
        decreases count - j,
    {
        let ghost pair = ups[j as int];
        let ghost head = rewritten(done, ups) + added(done, ups.take(j as int));
        proof {
            assert(ups.take(j + 1) =~= ups.take(j as int).push(pair));
            ups.take(j as int).lemma_filter_push(pair, unset_in(done));
        }
        if !touched[j] {
            out.append(updates.key_at(j).as_str());
            out.push('=');
            out.append(updates.value_at(j).as_str());
            out.push('\n');
            proof {
                let line = assignment(pair.0, pair.1);
                assert(rewritten(done, ups) + added(done, ups.take(j + 1)) =~= head.push(line));
                lemma_render_push(head, line);
            }
        }
        j = j + 1;
    }
    assert(ups.take(count as int) =~= ups);
    out
}

/// The text that was read from the settings file, or no text where the file
/// is absent or cannot be read.
pub open spec fn text_of(read: Option<&str>) -> Seq<char> {
    match read {
        Some(content) => content@,
        None => Seq::empty(),
    }
}

/// The current settings, given what reading the settings file gave: the
/// settings that the text holds, and none where there is no text.
pub fn get_settings(read: Option<&str>) -> (out: SettingsMap)
    ensures
        out.pairs() == parsed(lines_of(text_of(read))),
        read.is_none() ==> out.pairs() == Seq::<Pair>::empty(),
        distinct_keys(out.pairs()),
{
    match read {
        Some(content) => parse_settings(content),
        None => {
            let out = SettingsMap::new();
            out
        },
    }
}

/// The text to write to the settings file so that it holds `updates`, given
/// what reading the file gave: `updates` merged into the text, or into an
/// empty text where there is none.
pub fn save_settings(read: Option<&str>, updates: &SettingsMap) -> (out: String)
    ensures
        out@ == merged(text_of(read), updates.pairs()),
{
    match read {
        Some(content) => merge_settings(content, updates),
        None => {
            let out = merge_settings("", updates);
            proof {
                reveal_strlit("");
            }
            out
        },
    }
}

} // verus!
