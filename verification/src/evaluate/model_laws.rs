//! What a change of its lines does to a model file.

use crate::evaluate::context::{context_model_of, hidden_rows, hidden_size};
use crate::evaluate::model_text::{counting_lines, counts, field_at, model_lines};
use crate::evaluate::tree::{
    node_at, nodes_at, tree_at, tree_model_of, tree_section, trees_at, unsigned_or,
};
use crate::evaluate::weights::NumberFn;
use crate::text::{first_where, lemma_first_where, lines, trimmed, without_return};
use vstd::prelude::*;

verus! {

/// Whether a text ends where a line ends.
pub open spec fn ends_a_line(s: Seq<char>) -> bool {
    s.len() == 0 || s.last() == '\n'
}

/// Whether a text is within one line.
pub open spec fn within_a_line(s: Seq<char>) -> bool {
    forall|i: int| 0 <= i < s.len() ==> #[trigger] s[i] != '\n'
}

/// A line with what ends it.
pub open spec fn ended(line: Seq<char>) -> Seq<char> {
    line.push('\n')
}

/// The first place of a line feed.
proof fn lemma_first_feed(s: Seq<char>) -> (n: int)
    ensures
        0 <= n <= s.len(),
        n == first_where(s, |c: char| c == '\n'),
        forall|i: int| 0 <= i < n ==> #[trigger] s[i] != '\n',
        n < s.len() ==> s[n] == '\n',
    decreases s.len(),
{
    if s.len() == 0 || s[0] == '\n' {
        lemma_first_where(s, |c: char| c == '\n', 0);
        0
    } else {
        let rest = s.skip(1);
        let m = lemma_first_feed(rest);
        assert forall|i: int| 0 <= i < m + 1 implies #[trigger] s[i] != '\n' by {
            if i > 0 {
                assert(s[i] == rest[i - 1]);
            }
        }
        if m + 1 < s.len() {
            assert(s[m + 1] == rest[m]);
        }
        lemma_first_where(s, |c: char| c == '\n', m + 1);
        m + 1
    }
}

/// The lines of two texts, where the first ends with a line.
proof fn lemma_lines_join(a: Seq<char>, b: Seq<char>)
    requires
        ends_a_line(a),
    ensures
        lines(a + b) == lines(a) + lines(b),
    decreases a.len(),
{
    if a.len() == 0 {
        assert(a + b =~= b);
        assert(lines(a) + lines(b) =~= lines(b));
    } else {
        let n = lemma_first_feed(a);
        assert(a[a.len() - 1] == '\n');
        assert(n < a.len());
        let ab = a + b;
        assert forall|i: int| 0 <= i < n implies #[trigger] ab[i] != '\n' by {
            assert(ab[i] == a[i]);
        }
        assert(ab[n] == a[n]);
        lemma_first_where(ab, |c: char| c == '\n', n);
        let rest = a.skip(n + 1);
        assert(ab.take(n) =~= a.take(n));
        assert(ab.skip(n + 1) =~= rest + b);
        if rest.len() > 0 {
            assert(rest.last() == a.last());
        }
        lemma_lines_join(rest, b);
        let first = seq![without_return(a.take(n))];
        assert(first + (lines(rest) + lines(b)) =~= (first + lines(rest)) + lines(b));
    }
}

/// A line by itself.
proof fn lemma_one_line(line: Seq<char>)
    requires
        within_a_line(line),
    ensures
        lines(ended(line)) == seq![without_return(line)],
        line.len() > 0 ==> lines(line) == seq![line],
{
    let s = ended(line);
    assert forall|i: int| 0 <= i < line.len() implies #[trigger] s[i] != '\n' by {
        assert(s[i] == line[i]);
    }
    lemma_first_where(s, |c: char| c == '\n', line.len() as int);
    assert(s.take(line.len() as int) =~= line);
    assert(s.skip(line.len() as int + 1) =~= Seq::<char>::empty());
    assert(lines(Seq::<char>::empty()) =~= Seq::<Seq<char>>::empty());
    assert(seq![without_return(line)] + Seq::<Seq<char>>::empty() =~= seq![without_return(line)]);
    lemma_first_where(line, |c: char| c == '\n', line.len() as int);
}

/// Lines count one by one.
proof fn lemma_counting_joins(a: Seq<Seq<char>>, b: Seq<Seq<char>>, n: int)
    requires
        0 <= n <= b.len(),
    ensures
        counting_lines(a + b, a.len() + n) == counting_lines(a, a.len() as int) + counting_lines(
            b,
            n,
        ),
    decreases n,
{
    if n == 0 {
        lemma_counting_prefix(a, b, a.len() as int);
        assert(counting_lines(a, a.len() as int) + counting_lines(b, 0) =~= counting_lines(
            a,
            a.len() as int,
        ));
    } else {
        lemma_counting_joins(a, b, n - 1);
        assert((a + b)[a.len() + n - 1] == b[n - 1]);
        assert(counting_lines(a + b, a.len() + n) =~= counting_lines(a, a.len() as int)
            + counting_lines(b, n));
    }
}

proof fn lemma_counting_prefix(a: Seq<Seq<char>>, b: Seq<Seq<char>>, n: int)
    requires
        0 <= n <= a.len(),
    ensures
        counting_lines(a + b, n) == counting_lines(a, n),
    decreases n,
{
    if n > 0 {
        lemma_counting_prefix(a, b, n - 1);
        assert((a + b)[n - 1] == a[n - 1]);
    }
}

proof fn lemma_model_lines_join(a: Seq<char>, b: Seq<char>)
    requires
        ends_a_line(a),
    ensures
        model_lines(a + b) == model_lines(a) + model_lines(b),
{
    lemma_lines_join(a, b);
    lemma_counting_joins(lines(a), lines(b), lines(b).len() as int);
}

/// What one line counts for.
spec fn counting(line: Seq<char>) -> Seq<Seq<char>> {
    if counts(trimmed(line)) {
        seq![trimmed(line)]
    } else {
        Seq::empty()
    }
}

proof fn lemma_counting_one(line: Seq<char>)
    ensures
        counting_lines(seq![line], 1) == counting(line),
{
    reveal_with_fuel(counting_lines, 2);
    assert(counting_lines(seq![line], 0) =~= Seq::<Seq<char>>::empty());
    assert(counting_lines(seq![line], 1) =~= counting(line));
}

proof fn lemma_line_among(a: Seq<char>, line: Seq<char>, b: Seq<char>)
    requires
        ends_a_line(a),
        within_a_line(line),
    ensures
        model_lines(a + ended(line) + b) == model_lines(a) + counting(without_return(line))
            + model_lines(b),
{
    let s = ended(line);
    assert(s.last() == '\n');
    lemma_model_lines_join(a, s);
    lemma_one_line(line);
    lemma_counting_one(without_return(line));
    assert(ends_a_line(a + s)) by {
        assert((a + s).last() == s.last());
    }
    lemma_model_lines_join(a + s, b);
}

/// Blank lines and comments can be put in or taken out anywhere: a model file
/// says the same with them and without.
pub proof fn lemma_idle_lines_do_not_count(
    a: Seq<char>,
    line: Seq<char>,
    b: Seq<char>,
    num: NumberFn,
)
    requires
        ends_a_line(a),
        within_a_line(line),
        !counts(trimmed(without_return(line))),
    ensures
        tree_model_of(a + ended(line) + b, num) == tree_model_of(a + b, num),
        context_model_of(a + ended(line) + b, num) == context_model_of(a + b, num),
{
    lemma_line_among(a, line, b);
    lemma_model_lines_join(a, b);
    assert(model_lines(a + ended(line) + b) =~= model_lines(a + b));
}

/// A line can be indented, or other white space put around it: a model file
/// says the same with every line that is the same without.
pub proof fn lemma_white_space_does_not_count(
    a: Seq<char>,
    line: Seq<char>,
    other: Seq<char>,
    b: Seq<char>,
    num: NumberFn,
)
    requires
        ends_a_line(a),
        within_a_line(line),
        within_a_line(other),
        trimmed(without_return(line)) == trimmed(without_return(other)),
    ensures
        tree_model_of(a + ended(line) + b, num) == tree_model_of(a + ended(other) + b, num),
        context_model_of(a + ended(line) + b, num) == context_model_of(a + ended(other) + b, num),
{
    lemma_line_among(a, line, b);
    lemma_line_among(a, other, b);
}

/// Whether the lines of a file start with those of another.
spec fn starts_with(more: Seq<Seq<char>>, all: Seq<Seq<char>>) -> bool {
    &&& all.len() <= more.len()
    &&& forall|i: int| 0 <= i < all.len() ==> #[trigger] more[i] == all[i]
}

proof fn lemma_nodes_of_more(
    all: Seq<Seq<char>>,
    more: Seq<Seq<char>>,
    start: int,
    tree: int,
    n: int,
    count: int,
    num: NumberFn,
)
    requires
        starts_with(more, all),
        0 <= start,
        nodes_at(all, start, tree, n, count, num) is Ok,
    ensures
        nodes_at(more, start, tree, n, count, num) == nodes_at(all, start, tree, n, count, num),
    decreases n,
{
    if n > 0 {
        lemma_nodes_of_more(all, more, start, tree, n - 1, count, num);
        assert(node_at(more, start + n - 1, tree, n - 1, count, num) == node_at(
            all,
            start + n - 1,
            tree,
            n - 1,
            count,
            num,
        ));
    }
}

proof fn lemma_trees_of_more(
    all: Seq<Seq<char>>,
    more: Seq<Seq<char>>,
    start: int,
    n: int,
    num: NumberFn,
)
    requires
        starts_with(more, all),
        0 <= start,
        trees_at(all, start, n, num) is Ok,
    ensures
        trees_at(more, start, n, num) == trees_at(all, start, n, num),
        trees_at(all, start, n, num)->Ok_0.cursor >= start,
    decreases n,
{
    if n > 0 {
        lemma_trees_of_more(all, more, start, n - 1, num);
        let cursor = trees_at(all, start, n - 1, num)->Ok_0.cursor;
        assert(tree_at(all, cursor, n - 1, num) is Ok);
        assert(cursor < all.len());
        assert(more[cursor] == all[cursor]);
        let text = crate::text::behind(all[cursor], "tree "@)->0;
        let count = crate::text::unsigned(text)->0;
        lemma_nodes_of_more(all, more, cursor + 1, n - 1, count as int, count as int, num);
    }
}

/// No accepted model goes on: if the lines of a tree model or of a context
/// model make a file, no more lines behind them do.
proof fn lemma_no_model_goes_on(a: Seq<char>, b: Seq<char>, num: NumberFn)
    requires
        starts_with(model_lines(b), model_lines(a)),
        model_lines(a).len() < model_lines(b).len(),
    ensures
        tree_model_of(a, num) is Ok ==> tree_model_of(b, num) is Err,
        context_model_of(a, num) is Ok ==> context_model_of(b, num) is Err,
{
    let all = model_lines(a);
    let more = model_lines(b);
    if tree_model_of(a, num) is Ok {
        assert(tree_section(all, num) is Ok);
        assert(all.len() > 40);
        assert(more[40] == all[40]);
        let text = field_at(all, 40, "tree model"@, "trees "@, "missing trees count"@)->Ok_0;
        let count = unsigned_or(text, "bad trees count: "@)->Ok_0;
        lemma_trees_of_more(all, more, 41, count as int, num);
        assert(tree_section(more, num) is Err);
    }
    if context_model_of(a, num) is Ok {
        assert(hidden_rows(all, num) is Ok);
        assert(all.len() > 43);
        assert(more[43] == all[43]);
        assert(hidden_size(more) == hidden_size(all));
        assert(hidden_rows(more, num) is Err);
    }
}

/// A model file ends with its model: with one more line that counts at the
/// end it is refused, and without its last line that counts it is refused
/// too.
pub proof fn lemma_a_model_ends_its_file(
    text: Seq<char>,
    longer: Seq<char>,
    line: Seq<char>,
    num: NumberFn,
)
    requires
        model_lines(longer) == model_lines(text).push(line),
    ensures
        tree_model_of(text, num) is Ok ==> tree_model_of(longer, num) is Err,
        tree_model_of(longer, num) is Ok ==> tree_model_of(text, num) is Err,
        context_model_of(text, num) is Ok ==> context_model_of(longer, num) is Err,
        context_model_of(longer, num) is Ok ==> context_model_of(text, num) is Err,
{
    lemma_no_model_goes_on(text, longer, num);
}

/// A line behind a text that ends with a line is one more line of it, if it
/// counts.
pub proof fn lemma_a_line_more(text: Seq<char>, line: Seq<char>)
    requires
        ends_a_line(text),
        within_a_line(line),
        counts(trimmed(line)),
    ensures
        model_lines(text + line) == model_lines(text).push(trimmed(line)),
{
    if line.len() == 0 {
        assert(trimmed(line).len() == 0);
    }
    lemma_one_line(line);
    lemma_counting_one(line);
    lemma_model_lines_join(text, line);
    assert(model_lines(text) + counting(line) =~= model_lines(text).push(trimmed(line)));
}

} // verus!
