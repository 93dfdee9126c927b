//! The mathematical model of a chain: its table of weighted transitions,
//! what training does to it, and the sentences that it can produce.

use vstd::prelude::*;
use crate::text::{blank, normalized, tokens};

verus! {

/// The transitions recorded for one context: each next token with the
/// number of times it was seen, in the order of first appearance.
pub type Row = Seq<(Seq<char>, nat)>;

/// The state table: every context that was seen, with its transitions.
pub type Table = Map<Seq<Seq<char>>, Row>;

/// The token that fills the context before a sentence begins.
pub open spec fn start_token() -> Seq<char> {
    "START"@
}

/// The token that stands for the end of a sentence.
pub open spec fn end_token() -> Seq<char> {
    "END"@
}

/// The tokens after which a sentence ends at once.
pub open spec fn is_terminator(tok: Seq<char>) -> bool {
    tok == "."@ || tok == "?"@ || tok == "!"@
}

/// The context in which every sentence begins.
pub open spec fn start_context(degree: nat) -> Seq<Seq<char>> {
    Seq::new(degree, |i: int| start_token())
}

/// The context after `tok`: the oldest token leaves and `tok` enters.
pub open spec fn slide(ctx: Seq<Seq<char>>, tok: Seq<char>) -> Seq<Seq<char>> {
    ctx.skip(1).push(tok)
}

/// Whether `row` holds a transition to `tok`.
pub open spec fn row_has(row: Row, tok: Seq<char>) -> bool {
    exists|j: int| 0 <= j < row.len() && (#[trigger] row[j]).0 == tok
}

/// How often `row` has seen `tok`: the count of its first entry for `tok`,
/// zero where it has none.
pub open spec fn tally(row: Row, tok: Seq<char>) -> nat
    decreases row.len(),
{
    if row.len() == 0 {
        0
    } else if row[0].0 == tok {
        row[0].1
    } else {
        tally(row.skip(1), tok)
    }
}

/// The total weight of a row: the sum of its counts.
pub open spec fn weight(row: Row) -> nat
    decreases row.len(),
{
    if row.len() == 0 {
        0
    } else {
        row[0].1 + weight(row.skip(1))
    }
}

/// The row after one more sighting of `tok`: its count grows by one, or it
/// enters at the end with count one.
pub open spec fn observe_row(row: Row, tok: Seq<char>) -> Row
    decreases row.len(),
{
    if row.len() == 0 {
        seq![(tok, 1nat)]
    } else if row[0].0 == tok {
        row.update(0, (tok, row[0].1 + 1))
    } else {
        seq![row[0]] + observe_row(row.skip(1), tok)
    }
}

/// The transitions of `ctx`, empty where the table does not hold it.
pub open spec fn row_of(table: Table, ctx: Seq<Seq<char>>) -> Row {
    if table.dom().contains(ctx) {
        table[ctx]
    } else {
        Seq::empty()
    }
}

/// How often the table has seen the transition from `ctx` to `tok`.
pub open spec fn seen(table: Table, ctx: Seq<Seq<char>>, tok: Seq<char>) -> nat {
    tally(row_of(table, ctx), tok)
}

/// The table after one more sighting of the transition from `ctx` to `tok`.
pub open spec fn observe(table: Table, ctx: Seq<Seq<char>>, tok: Seq<char>) -> Table {
    table.insert(ctx, observe_row(row_of(table, ctx), tok))
}

/// A row as a chain keeps it: not empty, every count at least one, no token
/// twice, and a total weight that a `u32` holds.
pub open spec fn row_sound(row: Row) -> bool {
    &&& row.len() > 0
    &&& weight(row) <= u32::MAX
    &&& forall|j: int| 0 <= j < row.len() ==> (#[trigger] row[j]).1 >= 1
    &&& forall|j: int, k: int|
        0 <= j < row.len() && 0 <= k < row.len() && (#[trigger] row[j]).0 == (#[trigger] row[k]).0
            ==> j == k
}

/// A table as a chain of the given degree keeps it: every context has
/// `degree` tokens and a sound row.
pub open spec fn table_sound(table: Table, degree: nat) -> bool {
    forall|ctx: Seq<Seq<char>>| #[trigger]
        table.dom().contains(ctx) ==> ctx.len() == degree && row_sound(table[ctx])
}

/// The context that a chain of the given degree has reached after the words
/// of `sentence`.
pub open spec fn context_after(degree: nat, sentence: Seq<Seq<char>>) -> Seq<Seq<char>>
    decreases sentence.len(),
{
    if sentence.len() == 0 {
        start_context(degree)
    } else {
        slide(context_after(degree, sentence.drop_last()), sentence.last())
    }
}

/// Every word of `sentence` is a transition that the table holds for the
/// context before it, and none is the end token.
pub open spec fn follows(table: Table, degree: nat, sentence: Seq<Seq<char>>) -> bool {
    forall|i: int|
        0 <= i < sentence.len() ==> (#[trigger] sentence[i]) != end_token() && row_has(
            row_of(table, context_after(degree, sentence.take(i))),
            sentence[i],
        )
}

/// `sentence` is one that the table can produce: it follows the table, and
/// the table lets it end where it does.
pub open spec fn produces(table: Table, degree: nat, sentence: Seq<Seq<char>>) -> bool {
    follows(table, degree, sentence) && row_has(
        row_of(table, context_after(degree, sentence)),
        end_token(),
    )
}

/// `sentence` follows the table into a context that the table does not hold.
pub open spec fn strands(table: Table, degree: nat, sentence: Seq<Seq<char>>) -> bool {
    follows(table, degree, sentence) && !table.dom().contains(context_after(degree, sentence))
}

/// One more sighting of a token that the row holds at `j` and not before.
pub proof fn lemma_observe_found(row: Row, tok: Seq<char>, j: int)
    requires
        0 <= j < row.len(),
        row[j].0 == tok,
        forall|k: int| 0 <= k < j ==> (#[trigger] row[k]).0 != tok,
    ensures
        observe_row(row, tok) == row.update(j, (tok, row[j].1 + 1)),
    decreases row.len(),
{
    if j > 0 {
        let rest = row.skip(1);
        assert forall|k: int| 0 <= k < j - 1 implies (#[trigger] rest[k]).0 != tok by {
            assert(rest[k] == row[k + 1]);
        }
        lemma_observe_found(rest, tok, j - 1);
        assert(seq![row[0]] + rest.update(j - 1, (tok, rest[j - 1].1 + 1)) =~= row.update(
            j,
            (tok, row[j].1 + 1),
        ));
    }
}

/// One more sighting of a token that the row does not hold.
pub proof fn lemma_observe_new(row: Row, tok: Seq<char>)
    requires
        forall|k: int| 0 <= k < row.len() ==> (#[trigger] row[k]).0 != tok,
    ensures
        observe_row(row, tok) == row.push((tok, 1nat)),
    decreases row.len(),
{
    if row.len() == 0 {
        assert(seq![(tok, 1nat)] =~= row.push((tok, 1nat)));
    } else {
        let rest = row.skip(1);
        assert forall|k: int| 0 <= k < rest.len() implies (#[trigger] rest[k]).0 != tok by {
            assert(rest[k] == row[k + 1]);
        }
        lemma_observe_new(rest, tok);
        assert(seq![row[0]] + rest.push((tok, 1nat)) =~= row.push((tok, 1nat)));
    }
}

/// One more sighting adds one to the weight of a row.
pub proof fn lemma_observe_weight(row: Row, tok: Seq<char>)
    ensures
        weight(observe_row(row, tok)) == weight(row) + 1,
    decreases row.len(),
{
    let after = observe_row(row, tok);
    if row.len() == 0 {
        assert(after.skip(1) =~= Seq::empty());
        assert(weight(after.skip(1)) == 0);
    } else if row[0].0 == tok {
        assert(after.skip(1) =~= row.skip(1));
    } else {
        lemma_observe_weight(row.skip(1), tok);
        assert(after.skip(1) =~= observe_row(row.skip(1), tok));
    }
}

/// No count of a row exceeds its weight.
pub proof fn lemma_weight_bounds(row: Row, j: int)
    requires
        0 <= j < row.len(),
    ensures
        row[j].1 <= weight(row),
    decreases row.len(),
{
    if j > 0 {
        lemma_weight_bounds(row.skip(1), j - 1);
    }
}

/// Whether every row of the table can take `n` more sightings.
pub open spec fn room(table: Table, n: nat) -> bool {
    forall|ctx: Seq<Seq<char>>| weight(#[trigger] row_of(table, ctx)) + n <= u32::MAX
}

/// A table with room for one sighting more than `n` has room for `n` after
/// any one sighting.
pub proof fn lemma_room_observe(table: Table, ctx: Seq<Seq<char>>, tok: Seq<char>, n: nat)
    requires
        room(table, n + 1),
    ensures
        weight(row_of(table, ctx)) < u32::MAX,
        room(observe(table, ctx, tok), n),
{
    let after = observe(table, ctx, tok);
    lemma_observe_weight(row_of(table, ctx), tok);
    assert(weight(row_of(table, ctx)) + (n + 1) <= u32::MAX);
    assert forall|c: Seq<Seq<char>>| weight(#[trigger] row_of(after, c)) + n <= u32::MAX by {
        assert(weight(row_of(table, c)) + (n + 1) <= u32::MAX);
        if c != ctx {
            assert(row_of(after, c) == row_of(table, c));
        }
    }
}

/// Training under way: the table so far, the context that the next token
/// meets, and the number of sightings recorded.
pub struct Training {
    pub table: Table,
    pub context: Seq<Seq<char>>,
    pub steps: nat,
}

/// A sentence ends: the context is seen to lead to the end token, and the
/// next sentence begins at the start context.
pub open spec fn close_sentence(t: Training, degree: nat) -> Training {
    Training {
        table: observe(t.table, t.context, end_token()),
        context: start_context(degree),
        steps: t.steps + 1,
    }
}

/// One token is read: the context is seen to lead to it and slides on; a
/// terminator ends the sentence there.
pub open spec fn feed_token(t: Training, degree: nat, tok: Seq<char>) -> Training {
    let slid = Training {
        table: observe(t.table, t.context, tok),
        context: slide(t.context, tok),
        steps: t.steps + 1,
    };
    if is_terminator(tok) {
        close_sentence(slid, degree)
    } else {
        slid
    }
}

/// The tokens of one line are read in order.
pub open spec fn feed_tokens(t: Training, degree: nat, toks: Seq<Seq<char>>) -> Training
    decreases toks.len(),
{
    if toks.len() == 0 {
        t
    } else {
        feed_tokens(feed_token(t, degree, toks[0]), degree, toks.skip(1))
    }
}

/// One line is read: a blank line ends the sentence; any other line is
/// normalised and its tokens are read.
pub open spec fn feed_line(t: Training, degree: nat, line: Seq<char>) -> Training {
    if blank(line) {
        close_sentence(t, degree)
    } else {
        feed_tokens(t, degree, tokens(normalized(line)))
    }
}

/// The lines are read in order.
pub open spec fn feed_lines(t: Training, degree: nat, lines: Seq<Seq<char>>) -> Training
    decreases lines.len(),
{
    if lines.len() == 0 {
        t
    } else {
        feed_lines(feed_line(t, degree, lines[0]), degree, lines.skip(1))
    }
}

/// The text is over: a sentence that is still open is ended.
pub open spec fn finish(t: Training, degree: nat) -> Training {
    if t.context != start_context(degree) {
        close_sentence(t, degree)
    } else {
        t
    }
}

/// Training as it stands once the rest of a line and the lines after it are
/// read and the text is over.
pub open spec fn completed(
    t: Training,
    degree: nat,
    toks: Seq<Seq<char>>,
    lines: Seq<Seq<char>>,
) -> Training {
    finish(feed_lines(feed_tokens(t, degree, toks), degree, lines), degree)
}

/// Training a table of the given degree on a text, line by line, from the
/// start context.
pub open spec fn trained(table: Table, degree: nat, lines: Seq<Seq<char>>) -> Training {
    completed(
        Training { table, context: start_context(degree), steps: 0 },
        degree,
        Seq::empty(),
        lines,
    )
}

/// Reading tokens never lowers the number of sightings.
pub proof fn lemma_tokens_steps(t: Training, degree: nat, toks: Seq<Seq<char>>)
    ensures
        feed_tokens(t, degree, toks).steps >= t.steps,
    decreases toks.len(),
{
    if toks.len() > 0 {
        lemma_tokens_steps(feed_token(t, degree, toks[0]), degree, toks.skip(1));
    }
}

/// Reading lines never lowers the number of sightings.
pub proof fn lemma_lines_steps(t: Training, degree: nat, lines: Seq<Seq<char>>)
    ensures
        feed_lines(t, degree, lines).steps >= t.steps,
    decreases lines.len(),
{
    if lines.len() > 0 {
        if !blank(lines[0]) {
            lemma_tokens_steps(t, degree, tokens(normalized(lines[0])));
        }
        lemma_lines_steps(feed_line(t, degree, lines[0]), degree, lines.skip(1));
    }
}

/// Training never ends with fewer sightings than it has at any point.
pub proof fn lemma_completed_steps(
    t: Training,
    degree: nat,
    toks: Seq<Seq<char>>,
    lines: Seq<Seq<char>>,
)
    ensures
        completed(t, degree, toks, lines).steps >= t.steps,
{
    lemma_tokens_steps(t, degree, toks);
    lemma_lines_steps(feed_tokens(t, degree, toks), degree, lines);
}

} // verus!
