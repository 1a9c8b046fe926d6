//! The text form of a graph: a first line that holds a count, then one line
//! for each edge, which names the two ends of the edge by their labels.
//!
//! Lines end at a line feed. The words of a line are its longest runs of
//! characters that are no white space. The first line holds one word, a
//! decimal number that fits a machine word; every other line holds two words,
//! the labels of the ends of an edge. Each label stands for one vertex, and
//! the vertices are numbered in the order in which their labels first occur.

use crate::graph::{with_edge, Graph};
use vstd::prelude::*;

verus! {

/// The characters that separate words: the white space of Unicode.
pub open spec fn is_space(c: char) -> bool {
    let n = c as u32;
    ||| 0x09 <= n <= 0x0D
    ||| n == 0x20
    ||| n == 0x85
    ||| n == 0xA0
    ||| n == 0x1680
    ||| 0x2000 <= n <= 0x200A
    ||| n == 0x2028
    ||| n == 0x2029
    ||| n == 0x202F
    ||| n == 0x205F
    ||| n == 0x3000
}

/// The views of the vectors of `rows`.
pub open spec fn views(rows: Seq<Vec<char>>) -> Seq<Seq<char>> {
    Seq::new(rows.len(), |i: int| rows[i]@)
}

/// The pieces into which the line feeds cut `text`; a text with `k` line
/// feeds has `k + 1` pieces, some of which may be empty.
pub open spec fn pieces(text: Seq<char>) -> Seq<Seq<char>>
    decreases text.len(),
{
    if text.len() == 0 {
        seq![Seq::<char>::empty()]
    } else {
        let before = pieces(text.drop_last());
        if text.last() == '\n' {
            before.push(Seq::<char>::empty())
        } else {
            before.update(before.len() - 1, before.last().push(text.last()))
        }
    }
}

/// The lines of `text`: its pieces, without the last one if that is empty.
pub open spec fn lines(text: Seq<char>) -> Seq<Seq<char>> {
    let all = pieces(text);
    if all.last().len() == 0 {
        all.drop_last()
    } else {
        all
    }
}

/// The words of `line`: a character that is no white space goes on with the
/// last word if the character before it is none either, and begins a word
/// otherwise.
pub open spec fn words(line: Seq<char>) -> Seq<Seq<char>>
    decreases line.len(),
{
    if line.len() == 0 {
        Seq::empty()
    } else {
        let before = words(line.drop_last());
        if is_space(line.last()) {
            before
        } else if line.len() >= 2 && !is_space(line[line.len() - 2]) && before.len() > 0 {
            before.update(before.len() - 1, before.last().push(line.last()))
        } else {
            before.push(seq![line.last()])
        }
    }
}

/// Whether `c` is white space.
pub fn space(c: char) -> (yes: bool)
    ensures
        yes == is_space(c),
{
    let n: u32 = c as u32;
    (0x09 <= n && n <= 0x0D) || n == 0x20 || n == 0x85 || n == 0xA0 || n == 0x1680 || (0x2000 <= n
        && n <= 0x200A) || n == 0x2028 || n == 0x2029 || n == 0x202F || n == 0x205F || n == 0x3000
}

/// The characters of `text`.
pub fn chars_of(text: &str) -> (out: Vec<char>)
    ensures
        out@ == text@,
{
    let mut out: Vec<char> = Vec::new();
    for c in it: text.chars()
        invariant
            it.seq() == text@,
            out@ == it.seq().take(it.index()),
    {
        out.push(c);
    }
    assert(text@.take(text@.len() as int) =~= text@);
    out
}

/// The lines of `text`.
pub fn split_lines(text: &Vec<char>) -> (rows: Vec<Vec<char>>)
    ensures
        views(rows@) == lines(text@),
{
    let mut rows: Vec<Vec<char>> = Vec::new();
    let mut row: Vec<char> = Vec::new();
    let mut i: usize = 0;
    assert(text@.take(0) =~= Seq::<char>::empty());
    assert(pieces(text@.take(0)) =~= views(rows@).push(row@));
    while i < text.len()
        invariant
            i <= text@.len(),
            pieces(text@.take(i as int)) == views(rows@).push(row@),
        decreases text@.len() - i,
    {
        let c: char = text[i];
        let ghost before = views(rows@).push(row@);
        proof {
            assert(text@.take(i as int + 1).drop_last() =~= text@.take(i as int));
        }
        if c == '\n' {
            rows.push(row);
            row = Vec::new();
            assert(views(rows@).push(row@) =~= before.push(Seq::<char>::empty()));
        } else {
            row.push(c);
            assert(views(rows@).push(row@) =~= before.update(
                before.len() - 1,
                before.last().push(c),
            ));
        }
        i += 1;
    }
    assert(text@.take(i as int) =~= text@);
    let ghost all = views(rows@).push(row@);
    if row.len() > 0 {
        rows.push(row);
        assert(views(rows@) =~= all);
    } else {
        assert(views(rows@) =~= all.drop_last());
    }
    rows
}

/// The words of `line`.
pub fn split_words(line: &Vec<char>) -> (found: Vec<Vec<char>>)
    ensures
        views(found@) == words(line@),
{
    let mut found: Vec<Vec<char>> = Vec::new();
    let mut word: Vec<char> = Vec::new();
    let mut i: usize = 0;
    assert(line@.take(0) =~= Seq::<char>::empty());
    assert(words(line@.take(0)) =~= views(found@));
    while i < line.len()
        invariant
            i <= line@.len(),
            word@.len() > 0 <==> i > 0 && !is_space(line@[i as int - 1]),
            words(line@.take(i as int)) == if word@.len() > 0 {
                views(found@).push(word@)
            } else {
                views(found@)
            },
        decreases line@.len() - i,
    {
        let c: char = line[i];
        let ghost before = words(line@.take(i as int));
        let ghost kept = views(found@);
        proof {
            assert(line@.take(i as int + 1).drop_last() =~= line@.take(i as int));
        }
        if space(c) {
            if word.len() > 0 {
                found.push(word);
                word = Vec::new();
                assert(views(found@) =~= before);
            }
        } else {
            word.push(c);
            if word.len() > 1 {
                assert(views(found@).push(word@) =~= before.update(
                    before.len() - 1,
                    before.last().push(c),
                ));
            } else {
                assert(word@ =~= seq![c]);
                assert(views(found@).push(word@) =~= before.push(seq![c]));
            }
        }
        i += 1;
    }
    assert(line@.take(i as int) =~= line@);
    if word.len() > 0 {
        let ghost all = views(found@).push(word@);
        found.push(word);
        assert(views(found@) =~= all);
    }
    found
}

/// Whether `c` is a decimal digit.
pub open spec fn is_digit(c: char) -> bool {
    0x30 <= c as u32 <= 0x39
}

/// The number that the digits `digits` write.
pub open spec fn number(digits: Seq<char>) -> nat
    decreases digits.len(),
{
    if digits.len() == 0 {
        0
    } else {
        number(digits.drop_last()) * 10 + (digits.last() as u32 - 0x30) as nat
    }
}

/// The digits of `word`: the word without a plus sign at its head.
pub open spec fn digits_of(word: Seq<char>) -> Seq<char> {
    if word.len() > 0 && word[0] == '+' {
        word.skip(1)
    } else {
        word
    }
}

/// Whether `word` writes a count: digits, at least one, perhaps after a plus
/// sign, whose number fits a machine word.
pub open spec fn is_count(word: Seq<char>) -> bool {
    let digits = digits_of(word);
    &&& digits.len() > 0
    &&& forall|i: int| 0 <= i < digits.len() ==> is_digit(#[trigger] digits[i])
    &&& number(digits) <= usize::MAX
}

/// Whether `text` is an edge list: a first line with a count, and two labels
/// on every other line.
pub open spec fn well_formed(text: Seq<char>) -> bool {
    let rows = lines(text);
    &&& rows.len() >= 1
    &&& words(rows[0]).len() == 1
    &&& is_count(words(rows[0])[0])
    &&& forall|r: int| 1 <= r < rows.len() ==> (#[trigger] words(rows[r])).len() == 2
}

/// The edges that `text` lists, each as the labels of its two ends.
pub open spec fn edges(text: Seq<char>) -> Seq<(Seq<char>, Seq<char>)> {
    let rows = lines(text);
    Seq::new(
        (rows.len() - 1) as nat,
        |j: int| (words(rows[j + 1])[0], words(rows[j + 1])[1]),
    )
}

/// The labels with `label` behind them if it is new.
pub open spec fn noted(labels: Seq<Seq<char>>, label: Seq<char>) -> Seq<Seq<char>> {
    if labels.contains(label) {
        labels
    } else {
        labels.push(label)
    }
}

/// The labels of `edges`, each once, in the order in which they first occur.
pub open spec fn labels_of(edges: Seq<(Seq<char>, Seq<char>)>) -> Seq<Seq<char>>
    decreases edges.len(),
{
    if edges.len() == 0 {
        Seq::empty()
    } else {
        noted(noted(labels_of(edges.drop_last()), edges.last().0), edges.last().1)
    }
}

/// The edges with the number of each label in `labels` in place of the label.
pub open spec fn numbered(labels: Seq<Seq<char>>, edges: Seq<(Seq<char>, Seq<char>)>) -> Seq<
    (usize, usize),
> {
    Seq::new(
        edges.len(),
        |j: int| (labels.index_of(edges[j].0) as usize, labels.index_of(edges[j].1) as usize),
    )
}

/// The adjacency lists of the graph on `n` vertices with the edges `pairs`,
/// added in turn.
pub open spec fn linked(n: nat, pairs: Seq<(usize, usize)>) -> Seq<Seq<usize>>
    decreases pairs.len(),
{
    if pairs.len() == 0 {
        Seq::new(n, |v: int| Seq::<usize>::empty())
    } else {
        with_edge(linked(n, pairs.drop_last()), pairs.last().0, pairs.last().1)
    }
}

impl Graph {
    /// Whether this is the graph that the edge list `text` describes: a
    /// vertex for each label, numbered by first occurrence, all of them
    /// active, and the edges in the order of their lines.
    pub open spec fn reads(&self, text: Seq<char>) -> bool {
        let labels = labels_of(edges(text));
        &&& self.wf()
        &&& self.all_active()
        &&& self.labels() == labels
        &&& self.valid.order() == Seq::new(labels.len(), |v: int| v as usize)
        &&& self.adj() == linked(labels.len(), numbered(labels, edges(text)))
    }
}

/// A longer row of digits writes no smaller number.
proof fn lemma_number_grows(digits: Seq<char>, k: int)
    requires
        0 <= k <= digits.len(),
    ensures
        number(digits.take(k)) <= number(digits),
    decreases digits.len(),
{
    if k == digits.len() {
        assert(digits.take(k) =~= digits);
    } else {
        assert(digits.drop_last().take(k) =~= digits.take(k));
        lemma_number_grows(digits.drop_last(), k);
    }
}

/// The number that `word` writes, if it writes a count.
pub fn parse_count(word: &Vec<char>) -> (count: Option<usize>)
    ensures
        count is Some <==> is_count(word@),
        count matches Some(n) ==> n == number(digits_of(word@)),
{
    let start: usize = if word.len() > 0 && word[0] == '+' {
        1
    } else {
        0
    };
    let ghost digits = digits_of(word@);
    if start == word.len() {
        return None;
    }
    let mut total: usize = 0;
    let mut i: usize = start;
    assert(digits.take(0) =~= Seq::<char>::empty());
    while i < word.len()
        invariant
            start <= i <= word@.len(),
            digits == digits_of(word@),
            digits.len() == word@.len() - start,
            forall|j: int| 0 <= j < digits.len() ==> digits[j] == word@[j + start],
            forall|j: int| 0 <= j < i - start ==> is_digit(#[trigger] digits[j]),
            total == number(digits.take(i - start)),
        decreases word@.len() - i,
    {
        let c: u32 = word[i] as u32;
        if c < 0x30 || c > 0x39 {
            assert(!is_digit(digits[i - start]));
            return None;
        }
        let d: usize = (c - 0x30) as usize;
        proof {
            assert(digits.take(i - start + 1).drop_last() =~= digits.take(i - start));
            lemma_number_grows(digits, i - start + 1);
        }
        if total > (usize::MAX - d) / 10 {
            return None;
        }
        total = total * 10 + d;
        i += 1;
    }
    assert(digits.take(i - start) =~= digits);
    Some(total)
}

/// Whether `a` and `b` hold the same characters.
fn same_chars(a: &Vec<char>, b: &Vec<char>) -> (same: bool)
    ensures
        same == (a@ == b@),
{
    if a.len() != b.len() {
        return false;
    }
    let mut i: usize = 0;
    while i < a.len()
        invariant
            i <= a@.len(),
            a@.len() == b@.len(),
            forall|j: int| 0 <= j < i ==> a@[j] == b@[j],
        decreases a@.len() - i,
    {
        if a[i] != b[i] {
            return false;
        }
        i += 1;
    }
    assert(a@ =~= b@);
    true
}

/// The number of `label` among `names`; a label that is new goes to the end
/// of `names`.
pub(crate) fn intern(names: &mut Vec<Vec<char>>, label: Vec<char>) -> (id: usize)
    requires
        views(old(names)@).no_duplicates(),
    ensures
        views(final(names)@) == noted(views(old(names)@), label@),
        views(final(names)@).no_duplicates(),
        id < final(names)@.len(),
        final(names)@[id as int]@ == label@,
{
    let mut i: usize = 0;
    while i < names.len()
        invariant
            i <= names@.len(),
            names@ == old(names)@,
            views(names@).no_duplicates(),
            forall|j: int| 0 <= j < i ==> views(names@)[j] != label@,
        decreases names@.len() - i,
    {
        if same_chars(&names[i], &label) {
            assert(views(names@)[i as int] == label@);
            return i;
        }
        i += 1;
    }
    names.push(label);
    assert(views(names@) =~= views(old(names)@).push(label@));
    names.len() - 1
}

} // verus!
