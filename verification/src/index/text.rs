//! The text form of an index.
use vstd::prelude::*;
use vstd::string::StringExecFns;

use crate::args::digits_value;
use crate::primitives::{StateId, TokenId};
use crate::state_transitions::{Row, States, StateTransitions, Tokens};

verus! {

/// The character of a decimal digit.
pub open spec fn digit(d: nat) -> char {
    (d + '0' as nat) as char
}

/// The decimal digits of `n`.
pub open spec fn decimal(n: nat) -> Seq<char>
    decreases n,
{
    if n < 10 {
        seq![digit(n)]
    } else {
        decimal(n / 10).push(digit(n % 10))
    }
}

/// The first `n` entries of `row`, separated by commas.
pub open spec fn entries_text(row: Row, n: nat) -> Seq<char>
    decreases n,
{
    if n == 0 {
        Seq::empty()
    } else {
        let before = if n == 1 {
            Seq::empty()
        } else {
            entries_text(row, (n - 1) as nat) + ", "@
        };
        let (token, state) = row[n - 1];
        before + "("@ + decimal(token as nat) + ", "@ + decimal(state as nat) + ")"@
    }
}

/// The lines of the first `n` states. A state without transitions has none.
pub open spec fn lines_text(rows: Seq<Row>, n: nat) -> Seq<char>
    decreases n,
{
    if n == 0 {
        Seq::empty()
    } else {
        let before = lines_text(rows, (n - 1) as nat);
        let row = rows[n - 1];
        if row.len() == 0 {
            before
        } else {
            before + decimal((n - 1) as nat) + " -> ["@ + entries_text(row, row.len()) + "]\n"@
        }
    }
}

/// The text form of an index with the transitions `rows`.
pub open spec fn index_text(rows: Seq<Row>) -> Seq<char> {
    "Index object with transitions:\n"@ + lines_text(rows, rows.len())
}

/// Numbers are written with decimal digits that stand for them, without leading zeros.
pub proof fn law_decimal(n: nat)
    ensures
        decimal(n).len() > 0,
        forall|i: int| 0 <= i < decimal(n).len() ==> '0' <= #[trigger] decimal(n)[i] <= '9',
        decimal(n)[0] == '0' ==> n == 0,
        digits_value(decimal(n)) == n,
    decreases n,
{
    reveal_with_fuel(digits_value, 2);
    if n < 10 {
        assert(decimal(n).drop_last() =~= Seq::empty());
    } else {
        law_decimal(n / 10);
        assert(decimal(n).drop_last() =~= decimal(n / 10));
    }
}

/// Entries are written in parentheses, the token before the state, and joined by commas.
pub proof fn law_entries_are_joined(row: Row, more: Row, token: TokenId, state: StateId)
    ensures
        entries_text(seq![(token, state)], 1) == "("@ + decimal(token as nat) + ", "@ + decimal(state as nat) + ")"@,
        row.len() > 0 && more.len() > 0 ==> entries_text(row + more, (row + more).len()) == entries_text(
            row,
            row.len(),
        ) + ", "@ + entries_text(more, more.len()),
    decreases more.len(),
{
    assert(entries_text(seq![(token, state)], 1) =~= "("@ + decimal(token as nat) + ", "@ + decimal(state as nat)
        + ")"@);
    if row.len() > 0 && more.len() > 0 {
        let fewer = more.drop_last();
        let all = row + more;
        assert(all.take((row + fewer).len() as int) =~= row + fewer);
        assert(more.take(fewer.len() as int) =~= fewer);
        lemma_entries_front(all, row + fewer, (all.len() - 1) as nat);
        lemma_entries_front(more, fewer, fewer.len());
        if fewer.len() > 0 {
            law_entries_are_joined(row, fewer, token, state);
        } else {
            assert(row + fewer =~= row);
        }
        assert(all.last() == more.last());
        assert(entries_text(all, all.len()) =~= entries_text(row, row.len()) + ", "@ + entries_text(more, more.len()));
    }
}

/// The text of the first entries depends on those entries alone.
proof fn lemma_entries_front(row: Row, front: Row, n: nat)
    requires
        n <= front.len() <= row.len(),
        row.take(front.len() as int) == front,
    ensures
        entries_text(row, n) == entries_text(front, n),
    decreases n,
{
    if n > 0 {
        lemma_entries_front(row, front, (n - 1) as nat);
        assert(row.take(front.len() as int)[n - 1] == row[n - 1]);
    }
}

/// The text of an index is a heading, and for each state with transitions, in their order, a line
/// with the state and its entries.
pub proof fn law_lines(rows: Seq<Row>, row: Row)
    ensures
        index_text(Seq::empty()) == "Index object with transitions:\n"@,
        index_text(rows.push(row)) == index_text(rows) + if row.len() == 0 {
            Seq::empty()
        } else {
            decimal(rows.len()) + " -> ["@ + entries_text(row, row.len()) + "]\n"@
        },
{
    let all = rows.push(row);
    assert(all.take(rows.len() as int) =~= rows);
    lemma_lines_front(all, rows, rows.len());
    assert(index_text(Seq::empty()) =~= "Index object with transitions:\n"@);
    assert(index_text(all) =~= index_text(rows) + if row.len() == 0 {
        Seq::empty()
    } else {
        decimal(rows.len()) + " -> ["@ + entries_text(row, row.len()) + "]\n"@
    });
}

/// The lines of the first states depend on those states alone.
proof fn lemma_lines_front(rows: Seq<Row>, front: Seq<Row>, n: nat)
    requires
        n <= front.len() <= rows.len(),
        rows.take(front.len() as int) == front,
    ensures
        lines_text(rows, n) == lines_text(front, n),
    decreases n,
{
    if n > 0 {
        lemma_lines_front(rows, front, (n - 1) as nat);
        assert(rows.take(front.len() as int)[n - 1] == rows[n - 1]);
    }
}

/// Appends a decimal digit.
fn push_digit(out: &mut String, d: u64)
    requires
        d < 10,
    ensures
        final(out)@ == old(out)@.push(digit(d as nat)),
{
    proof {
        reveal_strlit("0");
        reveal_strlit("1");
        reveal_strlit("2");
        reveal_strlit("3");
        reveal_strlit("4");
        reveal_strlit("5");
        reveal_strlit("6");
        reveal_strlit("7");
        reveal_strlit("8");
        reveal_strlit("9");
    }
    if d == 0 {
        out.append("0");
    } else if d == 1 {
        out.append("1");
    } else if d == 2 {
        out.append("2");
    } else if d == 3 {
        out.append("3");
    } else if d == 4 {
        out.append("4");
    } else if d == 5 {
        out.append("5");
    } else if d == 6 {
        out.append("6");
    } else if d == 7 {
        out.append("7");
    } else if d == 8 {
        out.append("8");
    } else {
        out.append("9");
    }
    assert(out@ =~= old(out)@.push(digit(d as nat)));
}

/// Appends the decimal digits of `n`.
fn push_decimal(out: &mut String, n: u64)
    ensures
        final(out)@ == old(out)@ + decimal(n as nat),
    decreases n,
{
    if n < 10 {
        push_digit(out, n);
    } else {
        push_decimal(out, n / 10);
        push_digit(out, n % 10);
    }
    assert(out@ =~= old(out)@ + decimal(n as nat));
}

/// Appends the entries of a transition table, separated by commas.
fn push_entries(out: &mut String, row: &StateTransitions)
    ensures
        final(out)@ == old(out)@ + entries_text(row@, row@.len()),
{
    let mut tokens: Tokens = row.tokens();
    let mut states: States = row.states();
    let ghost all_tokens = tokens.remaining();
    let ghost all_states = states.remaining();
    let ghost mut n: nat = 0;
    let mut first: bool = true;
    proof {
        assert(all_tokens.skip(0) =~= all_tokens);
        assert(all_states.skip(0) =~= all_states);
        assert(out@ =~= old(out)@ + entries_text(row@, 0));
    }
    loop
        invariant
            all_tokens == Seq::new(row@.len(), |i: int| row@[i].0),
            all_states == Seq::new(row@.len(), |i: int| row@[i].1),
            n <= row@.len(),
            first == (n == 0),
            tokens.remaining() == all_tokens.skip(n as int),
            states.remaining() == all_states.skip(n as int),
            out@ == old(out)@ + entries_text(row@, n),
        ensures
            n == row@.len(),
        decreases row@.len() - n,
    {
        match (tokens.next(), states.next()) {
            (Some(token), Some(state)) => {
                if !first {
                    out.append(", ");
                }
                out.append("(");
                push_decimal(out, token as u64);
                out.append(", ");
                push_decimal(out, state as u64);
                out.append(")");
                first = false;
                proof {
                    assert(all_tokens.skip(n as int).skip(1) =~= all_tokens.skip((n + 1) as int));
                    assert(all_states.skip(n as int).skip(1) =~= all_states.skip((n + 1) as int));
                    n = n + 1;
                    assert(out@ =~= old(out)@ + entries_text(row@, n));
                }
            },
            _ => {
                break ;
            },
        }
    }
}

/// The text form of an index with the transition tables `transitions`.
pub(crate) fn text_of(transitions: &[StateTransitions]) -> (out: String)
    ensures
        out@ == index_text(Seq::new(transitions@.len(), |k: int| transitions@[k]@)),
{
    let ghost rows = Seq::new(transitions@.len(), |k: int| transitions@[k]@);
    let mut out: String = String::new();
    out.append("Index object with transitions:\n");
    let mut state_id: usize = 0;
    assert(out@ =~= "Index object with transitions:\n"@ + lines_text(rows, 0));
    while state_id < transitions.len()
        invariant
            rows == Seq::new(transitions@.len(), |k: int| transitions@[k]@),
            state_id <= transitions@.len(),
            out@ == "Index object with transitions:\n"@ + lines_text(rows, state_id as nat),
        decreases transitions@.len() - state_id,
    {
        let ghost before = out@;
        let row: &StateTransitions = &transitions[state_id];
        if row.tokens().next().is_some() {
            push_decimal(&mut out, state_id as u64);
            out.append(" -> [");
            push_entries(&mut out, row);
            out.append("]\n");
        }
        state_id += 1;
        assert(out@ =~= "Index object with transitions:\n"@ + lines_text(rows, state_id as nat));
    }
    out
}

} // verus!
