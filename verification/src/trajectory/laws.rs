//! What relabeling keeps.

use crate::text::{decimal, digit, found_from, is_white, lemma_found, trimmed_start};
use crate::trajectory::features::state_in;
use crate::trajectory::line::state_key;
use crate::trajectory::relabel::{has_root_value, key_of, label, relabeled, state_behind};
use vstd::prelude::*;

verus! {

/// A text first holds `part` at the one place where it does and before which
/// it does not.
proof fn lemma_found_is(s: Seq<char>, part: Seq<char>, i: int)
    requires
        0 <= i,
        i + part.len() <= s.len(),
        s.subrange(i, i + part.len()) == part,
        forall|k: int| 0 <= k < i ==> #[trigger] s.subrange(k, k + part.len()) != part,
    ensures
        found_from(s, part, 0) == Some(i),
{
    lemma_found(s, part, 0);
    if let Some(j) = found_from(s, part, 0) {
        if j < i {
            assert(s.subrange(j, j + part.len()) != part);
        }
        if i < j {
            assert(s.subrange(i, i + part.len()) == part);
        }
    } else {
        assert(s.subrange(i, i + part.len()) == part);
    }
}

/// Whether a text holds no quote.
pub open spec fn unquoted(s: Seq<char>) -> bool {
    forall|i: int| 0 <= i < s.len() ==> #[trigger] s[i] != '"'
}

proof fn lemma_decimal_is_unquoted(n: nat)
    ensures
        unquoted(decimal(n)),
        decimal(n).len() > 0,
    decreases n,
{
    if n >= 10 {
        lemma_decimal_is_unquoted(n / 10);
        let d = digit(n % 10);
        assert(d != '"');
    } else {
        assert(digit(n) != '"');
    }
}

/// In a label, no quote stands before an `s`, nor at the end.
proof fn lemma_label(value: Seq<char>, iterations: nat)
    requires
        unquoted(value),
    ensures
        label(value, iterations).len() > 0,
        label(value, iterations)[0] == '"',
        label(value, iterations).last() != '"',
        forall|i: int|
            0 <= i < label(value, iterations).len() - 1 && #[trigger] label(value, iterations)[i]
                == '"' ==> label(value, iterations)[i + 1] != 's',
{
    reveal_strlit("\"root_value\":");
    reveal_strlit(",\"teacher_iterations\":");
    reveal_strlit(",");
    lemma_decimal_is_unquoted(iterations);
    let a = "\"root_value\":"@;
    let b = ",\"teacher_iterations\":"@;
    let d = decimal(iterations);
    let whole = label(value, iterations);
    assert(whole.last() == ',');
    assert forall|i: int| 0 <= i < whole.len() - 1 && #[trigger] whole[i] == '"' implies whole[i
        + 1] != 's' by {
        if i < a.len() {
            assert(whole[i] == a[i]);
            if i + 1 < a.len() {
                assert(whole[i + 1] == a[i + 1]);
            }
        } else if i < a.len() + value.len() {
            assert(whole[i] == value[i - a.len()]);
        } else if i < a.len() + value.len() + b.len() {
            let k = i - a.len() - value.len();
            assert(whole[i] == b[k]);
            if k + 1 < b.len() {
                assert(whole[i + 1] == b[k + 1]);
            }
        } else if i < a.len() + value.len() + b.len() + d.len() {
            assert(whole[i] == d[i - a.len() - value.len() - b.len()]);
        }
    }
}

/// Relabeling keeps the state where downstream readers look for it: the key
/// of a relabeled line is the key of the line, moved by the label, and what
/// stands behind it is the same.
pub proof fn lemma_relabeling_keeps_state(
    line: Seq<char>,
    key: int,
    value: Seq<char>,
    iterations: nat,
    line_no: nat,
)
    requires
        key_of(line, line_no) == Ok::<int, Seq<char>>(key),
        unquoted(value),
    ensures
        ({
            let after = relabeled(line, key, value, iterations);
            let moved = key + label(value, iterations).len();
            &&& key_of(after, line_no) == Ok::<int, Seq<char>>(moved)
            &&& after.skip(moved + state_key().len()) == line.skip(key + state_key().len())
            &&& state_behind(after.skip(moved + state_key().len()), line_no) == state_behind(
                line.skip(key + state_key().len()),
                line_no,
            )
            &&& state_in(after, line_no) == state_in(line, line_no)
        }),
{
    reveal_strlit("\"state\"");
    let part = state_key();
    let l = label(value, iterations);
    let after = relabeled(line, key, value, iterations);
    let moved = key + l.len();
    lemma_found(line, part, 0);
    lemma_label(value, iterations);
    assert(line.subrange(key, key + 7) == part);
    assert(line[key] == line.subrange(key, key + 7)[0]);
    assert(after.subrange(moved, moved + 7) =~= part) by {
        assert(after.subrange(moved, moved + 7) =~= line.subrange(key, key + 7));
    }
    assert forall|m: int| 0 <= m < moved implies #[trigger] after.subrange(m, m + part.len())
        != part by {
        let here = after.subrange(m, m + 7);
        if here == part {
            assert(here[0] == after[m] && here[1] == after[m + 1]);
            assert(part[0] == '"' && part[1] == 's');
            if m >= key {
                assert(after[m] == l[m - key]);
                if m + 1 < moved {
                    assert(after[m + 1] == l[m - key + 1]);
                }
            } else if m + 7 <= key {
                assert(here =~= line.subrange(m, m + 7));
                assert(line.subrange(m, m + part.len()) != part);
            } else {
                let t = key - m;
                assert(here[t] == after[key]);
                assert(after[key] == l[0]);
                assert(part[t] == '"');
                assert(t == 6);
                assert(here =~= line.subrange(m, m + 7)) by {
                    assert forall|i: int| 0 <= i < 7 implies here[i] == line.subrange(m, m + 7)[i] by {
                        if i < 6 {
                            assert(after[m + i] == line[m + i]);
                        }
                    }
                }
                assert(line.subrange(m, m + part.len()) != part);
            }
        }
    }
    lemma_found_is(after, part, moved);
    assert(after.skip(moved + 7) =~= line.skip(key + 7));
    assert(after.skip(after.len() - 2) =~= line.skip(line.len() - 2));
}

/// Whoever relabels a line and whoever turns it into features read the same
/// state in it, or both refuse it.
pub proof fn lemma_readers_agree(line: Seq<char>, key: int, line_no: nat)
    requires
        key_of(line, line_no) == Ok::<int, Seq<char>>(key),
    ensures
        ({
            let behind = state_behind(line.skip(key + state_key().len()), line_no);
            let inside = state_in(line, line_no);
            &&& behind is Ok <==> inside is Ok
            &&& behind is Ok ==> behind == inside
        }),
{
    reveal_strlit("\"state\"");
    reveal_strlit(":");
    reveal_strlit("\"}");
    lemma_found(line, state_key(), 0);
    let rest = line.skip(key + 7);
    lemma_found(rest, ":"@, 0);
    if let Some(colon) = found_from(rest, ":"@, 0) {
        let tail = rest.skip(colon + 1);
        let value = trimmed_start(tail);
        lemma_trimmed_start_is_tail(tail);
        let inner = value.skip(1);
        if value.len() >= 3 {
            assert(value[value.len() - 2] == line[line.len() - 2]);
            assert(value[value.len() - 1] == line[line.len() - 1]);
            assert(line.skip(line.len() - 2) =~= inner.skip(inner.len() - 2));
            assert(inner.take(inner.len() - 2) =~= value.subrange(1, value.len() - 2));
        }
    }
}

/// What is left of a text without its leading white space is its end.
proof fn lemma_trimmed_start_is_tail(s: Seq<char>)
    ensures
        trimmed_start(s).len() <= s.len(),
        trimmed_start(s) == s.skip(s.len() - trimmed_start(s).len()),
    decreases s.len(),
{
    if s.len() > 0 && is_white(s[0]) {
        let rest = s.skip(1);
        lemma_trimmed_start_is_tail(rest);
        assert(trimmed_start(s) =~= s.skip(s.len() - trimmed_start(s).len()));
    } else {
        assert(s.skip(0) =~= s);
    }
}

/// A line is relabeled once: what relabeling gives is refused.
pub proof fn lemma_relabeled_line_is_refused(
    line: Seq<char>,
    key: int,
    value: Seq<char>,
    iterations: nat,
)
    requires
        0 <= key <= line.len(),
    ensures
        has_root_value(relabeled(line, key, value, iterations)),
{
    reveal_strlit("\"root_value\":");
    reveal_strlit("\"root_value\"");
    let after = relabeled(line, key, value, iterations);
    let part = "\"root_value\""@;
    lemma_found(after, part, 0);
    assert(after.subrange(key, key + part.len()) =~= part) by {
        assert forall|i: int| 0 <= i < part.len() implies after.subrange(key, key + part.len())[i]
            == part[i] by {
            assert(after[key + i] == label(value, iterations)[i]);
        }
    }
}

} // verus!
