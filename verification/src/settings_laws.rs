//! What holds of reading and writing the settings file: which value a key
//! has after a read, and that a merge followed by a read gives back what
//! was merged in and keeps what was not touched.

use vstd::prelude::*;
use crate::settings::{distinct_keys, lemma_lookup_put, lemma_position_of, lookup, position_of, Pair};
use crate::settings_file::{
    added, assignment, entry_of, fresh, key_of, lines_of, mentions, merged, merged_line,
    merged_lines, parsed, render, rewritten, strip_cr, unset_in,
};
use crate::text::{
    index_of, is_space, lemma_index_of, lemma_index_of_is, lemma_trim, lemma_trim_is,
    lemma_trimmed_ends, trim, trim_from, trim_to,
};

verus! {

/// The value that the last of `lines` to set `key` gives it, if any line
/// sets it.
pub open spec fn last_value(lines: Seq<Seq<char>>, key: Seq<char>) -> Option<Seq<char>>
    decreases lines.len(),
{
    if lines.len() == 0 {
        None
    } else if key_of(lines.last()) == Some(key) {
        Some(entry_of(lines.last()).unwrap().1)
    } else {
        last_value(lines.drop_last(), key)
    }
}

/// Reading gives each key the value of the last line that sets it, and no
/// value to a key that no line sets.
pub proof fn lemma_read_gives_last_value(lines: Seq<Seq<char>>, key: Seq<char>)
    ensures
        lookup(parsed(lines), key) == last_value(lines, key),
    decreases lines.len(),
{
    if lines.len() > 0 {
        lemma_read_gives_last_value(lines.drop_last(), key);
        match entry_of(lines.last()) {
            Some(entry) => {
                lemma_lookup_put(parsed(lines.drop_last()), entry.0, entry.1, key);
            },
            None => {},
        }
    }
}

/// A key has a value after a read exactly if some line sets it.
pub proof fn lemma_last_value_some(lines: Seq<Seq<char>>, key: Seq<char>)
    ensures
        last_value(lines, key).is_some() <==> mentions(lines, key),
    decreases lines.len(),
{
    if lines.len() > 0 {
        let front = lines.drop_last();
        lemma_last_value_some(front, key);
        if key_of(lines.last()) == Some(key) {
            assert(key_of(lines[lines.len() - 1]) == Some(key));
        } else {
            if mentions(front, key) {
                let i = choose|i: int| 0 <= i < front.len() && #[trigger] key_of(front[i]) == Some(key);
                assert(lines[i] == front[i]);
            }
            if mentions(lines, key) {
                let i = choose|i: int| 0 <= i < lines.len() && #[trigger] key_of(lines[i]) == Some(key);
                assert(i < front.len());
                assert(lines[i] == front[i]);
            }
        }
    }
}

/// Where every line that sets `key` gives it the value `value`, and some
/// line sets it, the key has that value after a read.
pub proof fn lemma_last_value_is(lines: Seq<Seq<char>>, key: Seq<char>, value: Seq<char>)
    requires
        mentions(lines, key),
        forall|i: int|
            0 <= i < lines.len() && #[trigger] key_of(lines[i]) == Some(key) ==> entry_of(lines[i])
                == Some((key, value)),
    ensures
        last_value(lines, key) == Some(value),
    decreases lines.len(),
{
    if lines.len() > 0 && key_of(lines.last()) == Some(key) {
        assert(key_of(lines[lines.len() - 1]) == Some(key));
    } else {
        let front = lines.drop_last();
        let i = choose|i: int| 0 <= i < lines.len() && #[trigger] key_of(lines[i]) == Some(key);
        assert(lines[i] == front[i]);
        assert forall|j: int|
            0 <= j < front.len() && #[trigger] key_of(front[j]) == Some(key) implies entry_of(
            front[j],
        ) == Some((key, value)) by {
            assert(front[j] == lines[j]);
        }
        lemma_last_value_is(front, key, value);
    }
}

/// Two runs of lines that line by line give `key` the same, give it the
/// same value after a read.
pub proof fn lemma_last_value_same(a: Seq<Seq<char>>, b: Seq<Seq<char>>, key: Seq<char>)
    requires
        a.len() == b.len(),
        forall|i: int|
            0 <= i < a.len() ==> (#[trigger] key_of(a[i]) == Some(key) <==> key_of(b[i]) == Some(
                key,
            )),
        forall|i: int|
            0 <= i < a.len() && #[trigger] key_of(a[i]) == Some(key) ==> entry_of(a[i]) == entry_of(
                b[i],
            ),
    ensures
        last_value(a, key) == last_value(b, key),
    decreases a.len(),
{
    if a.len() > 0 {
        let last = a.len() - 1;
        assert(key_of(a[last]) == Some(key) <==> key_of(b[last]) == Some(key));
        if key_of(a.last()) == Some(key) {
            assert(entry_of(a[last]) == entry_of(b[last]));
        } else {
            let fa = a.drop_last();
            let fb = b.drop_last();
            assert forall|i: int| 0 <= i < fa.len() implies (#[trigger] key_of(fa[i]) == Some(key)
                <==> key_of(fb[i]) == Some(key)) by {
                assert(fa[i] == a[i] && fb[i] == b[i]);
                assert(key_of(a[i]) == Some(key) <==> key_of(b[i]) == Some(key));
            }
            assert forall|i: int|
                0 <= i < fa.len() && #[trigger] key_of(fa[i]) == Some(key) implies entry_of(fa[i])
                == entry_of(fb[i]) by {
                assert(fa[i] == a[i] && fb[i] == b[i]);
                assert(key_of(a[i]) == Some(key));
            }
            lemma_last_value_same(fa, fb, key);
        }
    }
}

/// Lines after which no line sets `key` do not change what the key has.
pub proof fn lemma_last_value_add(a: Seq<Seq<char>>, b: Seq<Seq<char>>, key: Seq<char>)
    requires
        !mentions(b, key),
    ensures
        last_value(a + b, key) == last_value(a, key),
    decreases b.len(),
{
    if b.len() == 0 {
        assert(a + b =~= a);
    } else {
        let front = b.drop_last();
        assert((a + b).drop_last() =~= a + front);
        assert((a + b).last() == b[b.len() - 1]);
        assert(key_of(b[b.len() - 1]) != Some(key));
        assert forall|i: int| 0 <= i < front.len() implies #[trigger] key_of(front[i]) != Some(
            key,
        ) by {
            assert(front[i] == b[i]);
        }
        lemma_last_value_add(a, front, key);
    }
}

/// Whether `c` occurs nowhere in `s`.
pub open spec fn free_of(s: Seq<char>, c: char) -> bool {
    forall|j: int| 0 <= j < s.len() ==> s[j] != c
}

/// The carriage return at the end of a line.
pub open spec fn without_cr() -> spec_fn(Seq<char>) -> Seq<char> {
    |line: Seq<char>| strip_cr(line)
}

/// No line of a text holds a line feed.
pub proof fn lemma_lines_hold_no_line_feed(s: Seq<char>)
    ensures
        forall|i: int| 0 <= i < lines_of(s).len() ==> free_of(#[trigger] lines_of(s)[i], '\n'),
    decreases s.len(),
{
    let nl = index_of(s, '\n');
    lemma_index_of(s, '\n');
    if nl < s.len() {
        let rest = s.skip(nl as int + 1);
        lemma_lines_hold_no_line_feed(rest);
        let first = strip_cr(s.take(nl as int));
        assert(free_of(first, '\n')) by {
            assert forall|j: int| 0 <= j < first.len() implies first[j] != '\n' by {
                assert(first[j] == s[j]);
            }
        }
        assert forall|i: int| 0 <= i < lines_of(s).len() implies free_of(
            #[trigger] lines_of(s)[i],
            '\n',
        ) by {
            if i > 0 {
                assert(lines_of(s)[i] == lines_of(rest)[i - 1]);
            }
        }
    }
}

/// A text that starts with a line and its line feed has that line, without
/// a carriage return at its end, as its first line, and then the lines of
/// the rest.
pub proof fn lemma_lines_of_line(line: Seq<char>, rest: Seq<char>)
    requires
        free_of(line, '\n'),
    ensures
        lines_of(line + seq!['\n'] + rest) == seq![strip_cr(line)] + lines_of(rest),
{
    let s = line + seq!['\n'] + rest;
    lemma_index_of_is(s, '\n', line.len() as int);
    assert(s.take(line.len() as int) =~= line);
    assert(s.skip(line.len() as int + 1) =~= rest);
}

/// The text of some lines starts with the first line and its line feed.
pub proof fn lemma_render_front(lines: Seq<Seq<char>>)
    requires
        lines.len() > 0,
    ensures
        render(lines) == lines[0] + seq!['\n'] + render(lines.skip(1)),
    decreases lines.len(),
{
    if lines.len() == 1 {
        assert(lines.drop_last() =~= Seq::<Seq<char>>::empty());
        assert(lines.skip(1) =~= Seq::<Seq<char>>::empty());
    } else {
        let front = lines.drop_last();
        lemma_render_front(front);
        assert(front.skip(1) =~= lines.skip(1).drop_last());
    }
}

/// The lines of a text that was made of lines without line feeds are those
/// lines, each without a carriage return at its end.
pub proof fn lemma_lines_of_render(lines: Seq<Seq<char>>)
    requires
        forall|i: int| 0 <= i < lines.len() ==> free_of(#[trigger] lines[i], '\n'),
    ensures
        lines_of(render(lines)) == lines.map_values(without_cr()),
    decreases lines.len(),
{
    if lines.len() == 0 {
        assert(lines_of(render(lines)) =~= lines.map_values(without_cr()));
    } else {
        let rest = lines.skip(1);
        assert forall|i: int| 0 <= i < rest.len() implies free_of(#[trigger] rest[i], '\n') by {
            assert(rest[i] == lines[i + 1]);
        }
        lemma_lines_of_render(rest);
        lemma_render_front(lines);
        lemma_lines_of_line(lines[0], render(rest));
        assert(seq![strip_cr(lines[0])] + rest.map_values(without_cr()) =~= lines.map_values(
            without_cr(),
        ));
    }
}

/// A carriage return at the end of a line changes nothing in what the line
/// holds.
pub proof fn lemma_entry_ignores_cr(line: Seq<char>)
    ensures
        entry_of(strip_cr(line)) == entry_of(line),
{
    if line.len() > 0 && line.last() == '\r' {
        let short = line.drop_last();
        lemma_trim(line);
        let a = trim_from(line);
        let b = trim_to(line);
        if a < b {
            lemma_trim_is(short, a, b);
        } else {
            lemma_trim_is(short, 0, 0);
        }
        assert(trim(short) == trim(line));
    }
}

/// Two runs of lines that hold the same line by line give the same
/// settings.
pub proof fn lemma_parsed_same(a: Seq<Seq<char>>, b: Seq<Seq<char>>)
    requires
        a.len() == b.len(),
        forall|i: int| 0 <= i < a.len() ==> entry_of(#[trigger] a[i]) == entry_of(b[i]),
    ensures
        parsed(a) == parsed(b),
    decreases a.len(),
{
    if a.len() > 0 {
        let fa = a.drop_last();
        let fb = b.drop_last();
        lemma_parsed_same(fa, fb);
    }
}

/// Lines without line feeds, written out and read again, give the settings
/// that the lines hold.
pub proof fn lemma_read_of_render(lines: Seq<Seq<char>>)
    requires
        forall|i: int| 0 <= i < lines.len() ==> free_of(#[trigger] lines[i], '\n'),
    ensures
        parsed(lines_of(render(lines))) == parsed(lines),
{
    lemma_lines_of_render(lines);
    let read = lines.map_values(without_cr());
    assert forall|i: int| 0 <= i < read.len() implies entry_of(#[trigger] read[i]) == entry_of(
        lines[i],
    ) by {
        lemma_entry_ignores_cr(lines[i]);
    }
    lemma_parsed_same(read, lines);
}

/// Whether `key` can be written to the file and read back as it is: it has
/// no white space around it, holds no `=` and no line feed, and does not
/// start a comment.
pub open spec fn storable_key(key: Seq<char>) -> bool {
    &&& trim(key) == key
    &&& free_of(key, '=')
    &&& free_of(key, '\n')
    &&& key.len() > 0 ==> key[0] != '#'
}

/// Whether `value` stays on its line when it is written to the file.
pub open spec fn single_line(value: Seq<char>) -> bool {
    free_of(value, '\n')
}

/// Whether `value` can be written to the file and read back as it is: it
/// stays on its line and has no white space around it.
pub open spec fn storable_value(value: Seq<char>) -> bool {
    single_line(value) && trim(value) == value
}

/// Whether every key of `updates` can be written and read back, and every
/// value stays on its line.
pub open spec fn writable(updates: Seq<Pair>) -> bool {
    forall|i: int|
        0 <= i < updates.len() ==> storable_key((#[trigger] updates[i]).0) && single_line(
            updates[i].1,
        )
}

/// The line that assigns a value to a storable key sets that key, and gives
/// it the value as it is where the value has no white space around it.
pub proof fn lemma_assignment_entry(key: Seq<char>, value: Seq<char>)
    requires
        storable_key(key),
    ensures
        key_of(assignment(key, value)) == Some(key),
        trim(value) == value ==> entry_of(assignment(key, value)) == Some((key, value)),
{
    let line = assignment(key, value);
    let n = key.len() as int;
    lemma_trim(value);
    lemma_trimmed_ends(key);
    assert(!is_space('='));
    let kept = trim(value).len() as int;
    let from = trim_from(value);
    let b = if kept > 0 {
        n + 1 + trim_to(value)
    } else {
        n + 1
    };
    assert(line[n] == '=');
    assert forall|j: int| 0 <= j < n implies line[j] == key[j] by {}
    assert forall|j: int| n < j < line.len() implies line[j] == value[j - n - 1] by {}
    if kept > 0 {
        assert(trim(value).last() == value[trim_to(value) - 1]);
        assert(line[b - 1] == value[trim_to(value) - 1]);
    } else {
        assert forall|j: int| 0 <= j < value.len() implies is_space(value[j]) by {
            if j < from {
            } else {
            }
        }
    }
    assert forall|j: int| b <= j < line.len() implies is_space(line[j]) by {
        assert(line[j] == value[j - n - 1]);
    }
    if n > 0 {
        assert(line[0] == key[0]);
    }
    lemma_trim_is(line, 0, b);
    let t = line.subrange(0, b);
    assert(t[n] == '=');
    assert forall|j: int| 0 <= j < n implies t[j] != '=' by {
        assert(t[j] == key[j]);
    }
    lemma_index_of_is(t, '=', n);
    assert(t.take(n) =~= key);
    if trim(value) == value {
        assert(t.skip(n + 1) =~= value) by {
            if kept > 0 {
                assert(from == 0);
                assert(trim_to(value) == value.len());
            } else {
                assert(value.len() == 0);
            }
        }
    }
}

/// The line that assigns a value that stays on its line to a storable key
/// holds no line feed.
pub proof fn lemma_assignment_single_line(key: Seq<char>, value: Seq<char>)
    requires
        storable_key(key),
        single_line(value),
    ensures
        free_of(assignment(key, value), '\n'),
{
    let line = assignment(key, value);
    let n = key.len() as int;
    assert forall|j: int| 0 <= j < line.len() implies line[j] != '\n' by {
        if j < n {
            assert(line[j] == key[j]);
        } else if j == n {
            assert(line[j] == '=');
        } else {
            assert(line[j] == value[j - n - 1]);
        }
    }
}

/// A key that one of the settings has is found by a lookup; where the keys
/// are distinct, the lookup gives that setting's value.
pub proof fn lemma_lookup_finds(pairs: Seq<Pair>, at: int)
    requires
        0 <= at < pairs.len(),
    ensures
        lookup(pairs, pairs[at].0).is_some(),
        distinct_keys(pairs) ==> lookup(pairs, pairs[at].0) == Some(pairs[at].1),
{
    let key = pairs[at].0;
    lemma_position_of(pairs, key);
}

/// A value that a lookup gives belongs to one of the settings with that key.
pub proof fn lemma_lookup_is_a_setting(pairs: Seq<Pair>, key: Seq<char>)
    requires
        lookup(pairs, key).is_some(),
    ensures
        position_of(pairs, key) < pairs.len(),
        pairs[position_of(pairs, key) as int] == (key, lookup(pairs, key).unwrap()),
{
    lemma_position_of(pairs, key);
}

/// A merge leaves the key of a line as it is and puts no line feed into it.
pub proof fn lemma_merged_line(line: Seq<char>, updates: Seq<Pair>)
    requires
        writable(updates),
        free_of(line, '\n'),
    ensures
        key_of(merged_line(line, updates)) == key_of(line),
        free_of(merged_line(line, updates), '\n'),
{
    match key_of(line) {
        Some(key) => {
            if lookup(updates, key).is_some() {
                lemma_lookup_is_a_setting(updates, key);
                let value = lookup(updates, key).unwrap();
                lemma_assignment_entry(key, value);
                lemma_assignment_single_line(key, value);
            }
        },
        None => {},
    }
}

/// Each line that a merge adds assigns the value of one of the new settings
/// to its key, and none of the lines of the file sets that key.
pub proof fn lemma_added_line(lines: Seq<Seq<char>>, updates: Seq<Pair>, at: int) -> (from: int)
    requires
        0 <= at < added(lines, updates).len(),
    ensures
        0 <= from < updates.len(),
        !mentions(lines, updates[from].0),
        fresh(lines, updates)[at] == updates[from],
        added(lines, updates)[at] == assignment(updates[from].0, updates[from].1),
{
    let kept = fresh(lines, updates);
    updates.lemma_filter_pred(unset_in(lines), at);
    updates.lemma_filter_contains_rev(unset_in(lines), kept[at]);
    let from = choose|from: int| 0 <= from < updates.len() && updates[from] == kept[at];
    from
}

/// Every new setting whose key none of the lines of the file sets gets a
/// line of its own in a merge.
pub proof fn lemma_fresh_is_added(lines: Seq<Seq<char>>, updates: Seq<Pair>, from: int) -> (at: int)
    requires
        0 <= from < updates.len(),
        !mentions(lines, updates[from].0),
    ensures
        0 <= at < added(lines, updates).len(),
        added(lines, updates)[at] == assignment(updates[from].0, updates[from].1),
{
    let kept = fresh(lines, updates);
    updates.lemma_filter_contains(unset_in(lines), from);
    let at = choose|at: int| 0 <= at < kept.len() && kept[at] == updates[from];
    at
}

/// None of the lines that a merge writes holds a line feed, so each of them
/// is one line of the new file.
pub proof fn lemma_merged_lines_single(content: Seq<char>, updates: Seq<Pair>)
    requires
        writable(updates),
    ensures
        forall|i: int|
            0 <= i < merged_lines(content, updates).len() ==> free_of(
                #[trigger] merged_lines(content, updates)[i],
                '\n',
            ),
        parsed(lines_of(merged(content, updates))) == parsed(merged_lines(content, updates)),
{
    let lines = lines_of(content);
    let all = merged_lines(content, updates);
    lemma_lines_hold_no_line_feed(content);
    assert forall|i: int| 0 <= i < all.len() implies free_of(#[trigger] all[i], '\n') by {
        if i < lines.len() {
            lemma_merged_line(lines[i], updates);
        } else {
            let from = lemma_added_line(lines, updates, i - lines.len());
            lemma_assignment_single_line(updates[from].0, updates[from].1);
        }
    }
    lemma_read_of_render(all);
}

/// What was merged in is read back: after settings with distinct, storable
/// keys and storable values were merged into a file, whatever it held,
/// reading the new file gives each of those keys the value it was given.
pub proof fn lemma_merge_then_read(content: Seq<char>, updates: Seq<Pair>, at: int)
    requires
        distinct_keys(updates),
        writable(updates),
        0 <= at < updates.len(),
        storable_value(updates[at].1),
    ensures
        lookup(parsed(lines_of(merged(content, updates))), updates[at].0) == Some(updates[at].1),
{
    let lines = lines_of(content);
    let all = merged_lines(content, updates);
    let key = updates[at].0;
    let value = updates[at].1;
    lemma_merged_lines_single(content, updates);
    lemma_read_gives_last_value(all, key);
    lemma_lookup_finds(updates, at);
    lemma_lines_hold_no_line_feed(content);
    lemma_assignment_entry(key, value);
    assert forall|i: int| 0 <= i < all.len() && #[trigger] key_of(all[i]) == Some(key) implies entry_of(
        all[i],
    ) == Some((key, value)) by {
        if i < lines.len() {
            lemma_merged_line(lines[i], updates);
        } else {
            let from = lemma_added_line(lines, updates, i - lines.len());
            lemma_assignment_entry(updates[from].0, updates[from].1);
        }
    }
    assert(mentions(all, key)) by {
        if mentions(lines, key) {
            let i = choose|i: int| 0 <= i < lines.len() && #[trigger] key_of(lines[i]) == Some(key);
            assert(key_of(all[i]) == Some(key));
        } else {
            let j = lemma_fresh_is_added(lines, updates, at);
            assert(key_of(all[lines.len() + j]) == Some(key));
        }
    }
    lemma_last_value_is(all, key, value);
}

/// What was not merged in is kept: a key that is none of the merged ones has
/// after the merge what it had in the file before.
pub proof fn lemma_merge_keeps_others(content: Seq<char>, updates: Seq<Pair>, key: Seq<char>)
    requires
        writable(updates),
        lookup(updates, key).is_none(),
    ensures
        lookup(parsed(lines_of(merged(content, updates))), key) == lookup(
            parsed(lines_of(content)),
            key,
        ),
{
    let lines = lines_of(content);
    let changed = rewritten(lines, updates);
    let more = added(lines, updates);
    lemma_merged_lines_single(content, updates);
    lemma_read_gives_last_value(changed + more, key);
    lemma_read_gives_last_value(lines, key);
    lemma_lines_hold_no_line_feed(content);
    assert(!mentions(more, key)) by {
        if mentions(more, key) {
            let j = choose|j: int| 0 <= j < more.len() && #[trigger] key_of(more[j]) == Some(key);
            let from = lemma_added_line(lines, updates, j);
            lemma_assignment_entry(updates[from].0, updates[from].1);
            lemma_lookup_finds(updates, from);
        }
    }
    lemma_last_value_add(changed, more, key);
    assert forall|i: int| 0 <= i < changed.len() implies (#[trigger] key_of(changed[i]) == Some(key)
        <==> key_of(lines[i]) == Some(key)) by {
        lemma_merged_line(lines[i], updates);
    }
    assert forall|i: int| 0 <= i < changed.len() && #[trigger] key_of(changed[i]) == Some(
        key,
    ) implies entry_of(changed[i]) == entry_of(lines[i]) by {
        lemma_merged_line(lines[i], updates);
    }
    lemma_last_value_same(changed, lines, key);
}

/// A merge changes no line but those that set one of the merged keys: the
/// new file has the lines of the old one in their places, and a line that
/// sets no merged key is as it was.
pub proof fn lemma_merge_keeps_other_lines(content: Seq<char>, updates: Seq<Pair>, at: int)
    requires
        0 <= at < lines_of(content).len(),
        match key_of(lines_of(content)[at]) {
            Some(key) => lookup(updates, key).is_none(),
            None => true,
        },
    ensures
        merged_lines(content, updates).len() >= lines_of(content).len(),
        merged_lines(content, updates)[at] == lines_of(content)[at],
{
}

/// A merge updates in place: each line of the file sets after the merge the
/// key that it set before, or none if it set none.
pub proof fn lemma_merge_keeps_keys_in_place(content: Seq<char>, updates: Seq<Pair>, at: int)
    requires
        writable(updates),
        0 <= at < lines_of(content).len(),
    ensures
        key_of(merged_lines(content, updates)[at]) == key_of(lines_of(content)[at]),
{
    lemma_lines_hold_no_line_feed(content);
    lemma_merged_line(lines_of(content)[at], updates);
}

/// A merge adds no second line for a key that the file sets already: the
/// added lines set keys that no line of the file sets, each a different one.
pub proof fn lemma_merge_adds_no_duplicates(content: Seq<char>, updates: Seq<Pair>, i: int, j: int)
    requires
        distinct_keys(updates),
        writable(updates),
        0 <= i < j < added(lines_of(content), updates).len(),
    ensures
        key_of(added(lines_of(content), updates)[i]).is_some(),
        !mentions(lines_of(content), key_of(added(lines_of(content), updates)[i]).unwrap()),
        key_of(added(lines_of(content), updates)[i]) != key_of(
            added(lines_of(content), updates)[j],
        ),
{
    let lines = lines_of(content);
    let from_i = lemma_added_line(lines, updates, i);
    let from_j = lemma_added_line(lines, updates, j);
    lemma_assignment_entry(updates[from_i].0, updates[from_i].1);
    lemma_assignment_entry(updates[from_j].0, updates[from_j].1);
    lemma_filter_keeps_distinct(updates, unset_in(lines));
}

/// Filtering settings with distinct keys leaves the keys distinct.
pub proof fn lemma_filter_keeps_distinct(pairs: Seq<Pair>, keep: spec_fn(Pair) -> bool)
    requires
        distinct_keys(pairs),
    ensures
        distinct_keys(pairs.filter(keep)),
    decreases pairs.len(),
{
    reveal(Seq::filter);
    if pairs.len() > 0 {
        let front = pairs.drop_last();
        assert forall|i: int, j: int|
            0 <= i < front.len() && 0 <= j < front.len() && i != j implies (#[trigger] front[i]).0
            != (#[trigger] front[j]).0 by {
            assert(front[i] == pairs[i] && front[j] == pairs[j]);
        }
        lemma_filter_keeps_distinct(front, keep);
        let kept = front.filter(keep);
        if keep(pairs.last()) {
            let all = pairs.filter(keep);
            assert(all == kept.push(pairs.last()));
            assert forall|i: int, j: int|
                0 <= i < all.len() && 0 <= j < all.len() && i != j implies (#[trigger] all[i]).0 != (
                #[trigger] all[j]).0 by {
                if i < kept.len() && j < kept.len() {
                    assert(all[i] == kept[i] && all[j] == kept[j]);
                } else {
                    let k = if i < kept.len() {
                        i
                    } else {
                        j
                    };
                    assert(kept.contains(kept[k]));
                    front.lemma_filter_contains_rev(keep, kept[k]);
                    let from = choose|from: int| 0 <= from < front.len() && front[from] == kept[k];
                    assert(pairs[from] == kept[k]);
                    assert(pairs[from].0 != pairs[pairs.len() - 1].0);
                }
            }
        }
    }
}

} // verus!
