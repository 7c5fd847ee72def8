//! The elements of a payload: its lines, and the map from each element
//! identifier to the value that the payload gives it.

use crate::text::{chars_of, lemma_trim_twice, string_of, trim, trim_bounds};
use vstd::hash_map::StringHashMap;
use vstd::prelude::*;

verus! {

/// The number of characters in front of the first line feed of `s`; the
/// length of `s` where it holds none.
pub open spec fn first_newline(s: Seq<char>) -> int
    decreases s.len(),
{
    if s.len() == 0 || s.first() == '\n' {
        0
    } else {
        1 + first_newline(s.drop_first())
    }
}

/// `s` without the carriage return at its end, if it has one.
pub open spec fn strip_cr(s: Seq<char>) -> Seq<char> {
    if s.len() > 0 && s.last() == '\r' {
        s.drop_last()
    } else {
        s
    }
}

/// The lines of `s`. A line ends at a line feed, or at a carriage return
/// followed by a line feed; neither belongs to the line. What follows the
/// last line feed is a line too unless it is empty.
pub open spec fn lines_of(s: Seq<char>) -> Seq<Seq<char>>
    decreases s.len(),
{
    let n = first_newline(s);
    if s.len() == 0 {
        Seq::empty()
    } else if 0 <= n < s.len() {
        seq![strip_cr(s.take(n))] + lines_of(s.skip(n + 1))
    } else {
        seq![s]
    }
}

/// Whether `line` states an element: it does from three characters on.
pub open spec fn is_element(line: Seq<char>) -> bool {
    line.len() >= 3
}

/// The identifier of the element that `line` states: its first three
/// characters.
pub open spec fn element_id(line: Seq<char>) -> Seq<char> {
    line.take(3)
}

/// The value of the element that `line` states: what follows the identifier,
/// without the whitespace around it.
pub open spec fn element_value(line: Seq<char>) -> Seq<char> {
    trim(line.skip(3))
}

/// The elements that `lines` state. Where several lines state one element,
/// the last of them gives its value.
pub open spec fn elements_of(lines: Seq<Seq<char>>) -> Map<Seq<char>, Seq<char>>
    decreases lines.len(),
{
    if lines.len() == 0 {
        Map::empty()
    } else if is_element(lines.last()) {
        elements_of(lines.drop_last()).insert(
            element_id(lines.last()),
            element_value(lines.last()),
        )
    } else {
        elements_of(lines.drop_last())
    }
}

/// The elements that the payload `raw` states.
pub open spec fn element_map(raw: Seq<char>) -> Map<Seq<char>, Seq<char>> {
    elements_of(lines_of(raw))
}

/// `first_newline` lies within the sequence, no line feed stands in front of
/// it, and one stands at it unless it is the end.
pub proof fn lemma_first_newline(s: Seq<char>)
    ensures
        0 <= first_newline(s) <= s.len(),
        forall|i: int| 0 <= i < first_newline(s) ==> s[i] != '\n',
        first_newline(s) < s.len() ==> s[first_newline(s)] == '\n',
    decreases s.len(),
{
    if s.len() > 0 && s.first() != '\n' {
        lemma_first_newline(s.drop_first());
        assert forall|i: int| 0 <= i < first_newline(s) implies s[i] != '\n' by {
            if i > 0 {
                assert(s[i] == s.drop_first()[i - 1]);
            }
        }
    }
}

/// Whether `line` states the element `id`.
pub open spec fn states(line: Seq<char>, id: Seq<char>) -> bool {
    is_element(line) && element_id(line) == id
}

/// The place in `lines` of the last line that states the element `id`; -1
/// where none does.
pub open spec fn last_line_of(lines: Seq<Seq<char>>, id: Seq<char>) -> int
    decreases lines.len(),
{
    if lines.len() == 0 {
        -1
    } else if states(lines.last(), id) {
        lines.len() - 1
    } else {
        last_line_of(lines.drop_last(), id)
    }
}

/// Whether no two of `lines` state one element.
pub open spec fn ids_distinct(lines: Seq<Seq<char>>) -> bool {
    forall|i: int, j: int|
        0 <= i < j < lines.len() && is_element(#[trigger] lines[i]) && is_element(
            #[trigger] lines[j],
        ) ==> element_id(lines[i]) != element_id(lines[j])
}

/// The lines of `lines` written out as a payload, each ended by a line feed.
pub open spec fn join_lines(lines: Seq<Seq<char>>) -> Seq<char>
    decreases lines.len(),
{
    if lines.len() == 0 {
        Seq::empty()
    } else {
        lines.first() + seq!['\n'] + join_lines(lines.drop_first())
    }
}

/// Whether `line` can stand as one line of a payload: it holds no line feed
/// and does not end in a carriage return.
pub open spec fn is_line(line: Seq<char>) -> bool {
    (forall|i: int| 0 <= i < line.len() ==> #[trigger] line[i] != '\n') && strip_cr(line) == line
}

/// Every value in the elements of a payload is free of whitespace at both
/// ends.
pub proof fn lemma_values_trimmed(lines: Seq<Seq<char>>)
    ensures
        forall|id: Seq<char>| #[trigger]
            elements_of(lines).contains_key(id) ==> trim(elements_of(lines)[id]) == elements_of(
                lines,
            )[id],
    decreases lines.len(),
{
    if lines.len() > 0 {
        let rest = lines.drop_last();
        lemma_values_trimmed(rest);
        assert forall|id: Seq<char>| #[trigger]
            elements_of(lines).contains_key(id) implies trim(elements_of(lines)[id])
            == elements_of(lines)[id] by {
            if states(lines.last(), id) {
                lemma_trim_twice(lines.last().skip(3));
            } else {
                assert(elements_of(rest).contains_key(id));
            }
        }
    }
}

/// The elements of lines written one behind the other: those of the first
/// lines, but for the elements that the last lines state again.
pub proof fn lemma_elements_of_concat(first: Seq<Seq<char>>, last: Seq<Seq<char>>)
    ensures
        elements_of(first + last) == elements_of(first).union_prefer_right(elements_of(last)),
    decreases last.len(),
{
    if last.len() == 0 {
        assert(first + last == first);
        assert(elements_of(first).union_prefer_right(elements_of(last)) == elements_of(first));
    } else {
        assert((first + last).drop_last() == first + last.drop_last());
        lemma_elements_of_concat(first, last.drop_last());
        assert(elements_of(first + last) == elements_of(first).union_prefer_right(
            elements_of(last),
        ));
    }
}

/// Of the lines that state an element, the last one gives its value, and an
/// element that no line states is missing.
pub proof fn lemma_last_line_wins(lines: Seq<Seq<char>>, id: Seq<char>)
    ensures
        -1 <= last_line_of(lines, id) < lines.len(),
        last_line_of(lines, id) >= 0 ==> states(lines[last_line_of(lines, id)], id),
        forall|j: int| last_line_of(lines, id) < j < lines.len() ==> !states(#[trigger] lines[j], id),
        elements_of(lines).contains_key(id) <==> last_line_of(lines, id) >= 0,
        last_line_of(lines, id) >= 0 ==> elements_of(lines)[id] == element_value(
            lines[last_line_of(lines, id)],
        ),
    decreases lines.len(),
{
    if lines.len() > 0 {
        let rest = lines.drop_last();
        lemma_last_line_wins(rest, id);
        if !states(lines.last(), id) {
            assert forall|j: int| last_line_of(lines, id) < j < lines.len() implies !states(
                #[trigger] lines[j],
                id,
            ) by {
                if j < rest.len() {
                    assert(lines[j] == rest[j]);
                }
            }
        }
    }
}

/// The order of the lines does not matter to the elements they state, as
/// long as each element has its value from the same line: lines that are
/// put in another order state the same elements if, for each element, the
/// last line that states it gives the same value before and after.
pub proof fn lemma_order_of_lines(one: Seq<Seq<char>>, other: Seq<Seq<char>>)
    requires
        one.to_multiset() == other.to_multiset(),
        forall|id: Seq<char>|
            #![trigger last_line_of(one, id)]
            last_line_of(one, id) >= 0 && last_line_of(other, id) >= 0 ==> element_value(
                one[last_line_of(one, id)],
            ) == element_value(other[last_line_of(other, id)]),
    ensures
        elements_of(one) == elements_of(other),
{
    one.to_multiset_ensures();
    other.to_multiset_ensures();
    assert forall|id: Seq<char>|
        #![trigger elements_of(one).dom().contains(id)]
        #![trigger elements_of(other).dom().contains(id)]
        elements_of(one).dom().contains(id) == elements_of(other).dom().contains(id) && (
        elements_of(one).dom().contains(id) ==> elements_of(one)[id] == elements_of(other)[id]) by {
        lemma_last_line_wins(one, id);
        lemma_last_line_wins(other, id);
        let i = last_line_of(one, id);
        let j = last_line_of(other, id);
        if i >= 0 {
            assert(one.contains(one[i]));
            assert(other.to_multiset().count(one[i]) > 0);
            assert(other.contains(one[i]));
            let k = choose|k: int| 0 <= k < other.len() && other[k] == one[i];
            assert(states(other[k], id));
        }
        if j >= 0 {
            assert(other.contains(other[j]));
            assert(one.to_multiset().count(other[j]) > 0);
            assert(one.contains(other[j]));
            let k = choose|k: int| 0 <= k < one.len() && one[k] == other[j];
            assert(states(one[k], id));
        }
        if i >= 0 && j >= 0 {
            assert(element_value(one[last_line_of(one, id)]) == element_value(
                other[last_line_of(other, id)],
            ));
        }
    }
    assert(elements_of(one) =~= elements_of(other));
}

/// Where no two lines state one element, the lines state the same elements
/// in whatever order they stand.
pub proof fn lemma_order_without_duplicates(one: Seq<Seq<char>>, other: Seq<Seq<char>>)
    requires
        one.to_multiset() == other.to_multiset(),
        ids_distinct(one),
    ensures
        elements_of(one) == elements_of(other),
{
    one.to_multiset_ensures();
    other.to_multiset_ensures();
    assert forall|id: Seq<char>|
        #![trigger last_line_of(one, id)]
        last_line_of(one, id) >= 0 && last_line_of(other, id) >= 0 implies element_value(
        one[last_line_of(one, id)],
    ) == element_value(other[last_line_of(other, id)]) by {
        lemma_last_line_wins(one, id);
        lemma_last_line_wins(other, id);
        let i = last_line_of(one, id);
        let j = last_line_of(other, id);
        assert(other.contains(other[j]));
        assert(one.to_multiset().count(other[j]) > 0);
        assert(one.contains(other[j]));
        let k = choose|k: int| 0 <= k < one.len() && one[k] == other[j];
        assert(states(one[k], id));
        if k < i {
            assert(element_id(one[k]) != element_id(one[i]));
        } else if i < k {
            assert(element_id(one[i]) != element_id(one[k]));
        }
    }
    lemma_order_of_lines(one, other);
}

/// A payload written out line by line has those lines.
pub proof fn lemma_lines_of_joined(lines: Seq<Seq<char>>)
    requires
        forall|i: int| 0 <= i < lines.len() ==> is_line(#[trigger] lines[i]),
    ensures
        lines_of(join_lines(lines)) == lines,
    decreases lines.len(),
{
    if lines.len() > 0 {
        let line = lines.first();
        let rest = lines.drop_first();
        let text = join_lines(lines);
        assert(is_line(line));
        assert forall|i: int| 0 <= i < rest.len() implies is_line(#[trigger] rest[i]) by {
            assert(rest[i] == lines[i + 1]);
        }
        lemma_lines_of_joined(rest);
        lemma_first_newline(text);
        let n = first_newline(text);
        assert(text[line.len() as int] == '\n');
        assert(n == line.len()) by {
            if n < line.len() {
                assert(text[n] == line[n]);
            }
        }
        assert(text.take(n) == line);
        assert(text.skip(n + 1) == join_lines(rest));
        assert(seq![line] + rest == lines);
    }
}

/// The elements of one payload, by identifier.
pub struct ElementMap {
    entries: StringHashMap<String>,
}

impl View for ElementMap {
    type V = Map<Seq<char>, Seq<char>>;

    closed spec fn view(&self) -> Map<Seq<char>, Seq<char>> {
        Map::new(
            |id: Seq<char>| self.entries@.contains_key(id),
            |id: Seq<char>| self.entries@[id]@,
        )
    }
}

impl ElementMap {
    /// A map without elements.
    pub fn new() -> (map: ElementMap)
        ensures
            map@ == Map::<Seq<char>, Seq<char>>::empty(),
    {
        let map = ElementMap { entries: StringHashMap::new() };
        assert(map@ =~= Map::<Seq<char>, Seq<char>>::empty());
        map
    }

    /// Gives the element `id` the value `value`, in place of the one it had.
    pub fn insert(&mut self, id: String, value: String)
        ensures
            final(self)@ == old(self)@.insert(id@, value@),
    {
        self.entries.insert(id, value);
        assert(self@ =~= old(self)@.insert(id@, value@));
    }

    /// The value of the element `id`, if the map holds it.
    pub fn get(&self, id: &str) -> (value: Option<&String>)
        ensures
            match value {
                Some(v) => self@.contains_key(id@) && v@ == self@[id@],
                None => !self@.contains_key(id@),
            },
    {
        self.entries.get(id)
    }

    /// Reads the elements of the payload `raw_data`: each line of three
    /// characters or more states one, and a later line overrides an earlier
    /// one with the same identifier.
    pub fn from_raw_data(raw_data: &str) -> (map: ElementMap)
        ensures
            map@ == element_map(raw_data@),
    {
        let v = chars_of(raw_data);
        let mut map = ElementMap::new();
        let ghost mut done: Seq<Seq<char>> = Seq::empty();
        let mut pos: usize = 0;
        assert(v@.skip(0) == v@);
        while pos < v.len()
            invariant
                pos <= v.len(),
                lines_of(v@) == done + lines_of(v@.skip(pos as int)),
                map@ == elements_of(done),
            decreases v.len() - pos,
        {
            let ghost rest = v@.skip(pos as int);
            let end: usize = find_newline(&v, pos);
            let terminated: bool = end < v.len();
            let stop: usize = if terminated && pos < end && v[end - 1] == '\r' {
                end - 1
            } else {
                end
            };
            let ghost line = v@.subrange(pos as int, stop as int);
            proof {
                assert(rest.take(end - pos) == v@.subrange(pos as int, end as int));
                if terminated {
                    assert(line == strip_cr(rest.take(end - pos)));
                    assert(rest.skip(end - pos + 1) == v@.skip(end + 1));
                } else {
                    assert(line == rest);
                    assert(v@.skip(end as int).len() == 0);
                }
                assert(lines_of(rest) == seq![line] + lines_of(
                    v@.skip(
                        if terminated {
                            end + 1
                        } else {
                            end as int
                        },
                    ),
                ));
                assert((done + seq![line]).drop_last() == done);
            }
            if stop - pos >= 3 {
                let id = string_of(&v, pos, pos + 3);
                let (from, to) = trim_bounds(&v, pos + 3, stop);
                let value = string_of(&v, from, to);
                proof {
                    assert(line.take(3) == v@.subrange(pos as int, pos + 3));
                    assert(line.skip(3) == v@.subrange(pos + 3, stop as int));
                }
                map.insert(id, value);
            }
            proof {
                done = done + seq![line];
            }
            pos = if terminated {
                end + 1
            } else {
                end
            };
        }
        assert(done + Seq::<Seq<char>>::empty() == done);
        map
    }
}

/// The place of the first line feed in `v` from `from` on; the length of
/// `v` where none follows.
fn find_newline(v: &Vec<char>, from: usize) -> (end: usize)
    requires
        from <= v.len(),
    ensures
        from <= end <= v.len(),
        end - from == first_newline(v@.skip(from as int)),
{
    let mut end: usize = from;
    while end < v.len() && v[end] != '\n'
        invariant
            from <= end <= v.len(),
            first_newline(v@.skip(from as int)) == end - from + first_newline(v@.skip(end as int)),
        decreases v.len() - end,
    {
        assert(v@.skip(end as int).drop_first() == v@.skip(end + 1));
        end += 1;
    }
    end
}

} // verus!
