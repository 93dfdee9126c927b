//! What holds of the model whatever the text and whatever the draws.

use vstd::prelude::*;
use crate::model::{
    context_after, end_token, feed_line, feed_lines, feed_token, feed_tokens, follows,
    is_terminator, observe, observe_row, produces, row_has, row_of, seen, slide, start_context,
    tally, trained,
    Row, Table, Training,
};
use crate::text::{
    alphabetic, blank, lowercase_of, normalized, normalized_char, pending, tokens, tokens_after,
};

verus! {

/// A word that normalisation has nothing to do to: every character is
/// alphabetic and is its own lowercase form.
pub open spec fn plain_word(s: Seq<char>) -> bool {
    forall|i: int| 0 <= i < s.len() ==> lowercase_of(#[trigger] s[i]) == s[i] && alphabetic(s[i])
}

/// Normalising a plain word gives the word back.
pub proof fn lemma_normalized_plain_word(s: Seq<char>)
    requires
        plain_word(s),
    ensures
        normalized(s) == s,
    decreases s.len(),
{
    if s.len() > 0 {
        let front = s.drop_last();
        assert forall|i: int| 0 <= i < front.len() implies lowercase_of(#[trigger] front[i])
            == front[i] && alphabetic(front[i]) by {
            assert(front[i] == s[i]);
        }
        lemma_normalized_plain_word(front);
        assert(lowercase_of(s[s.len() - 1]) == s.last());
        assert(front + seq![s.last()] =~= s);
    } else {
        assert(s =~= Seq::empty());
    }
}

/// A character that normalisation sets apart: neither alphabetic nor a
/// space.
pub open spec fn mark(c: char) -> bool {
    !alphabetic(c) && c != ' '
}

/// Text that is normalised already, read after `word`: every character is
/// its own lowercase form, and every mark stands alone between spaces or
/// the ends of the text.
pub open spec fn settled_after(word: Seq<char>, s: Seq<char>) -> bool {
    &&& forall|i: int| 0 <= i < s.len() ==> lowercase_of(#[trigger] s[i]) == s[i]
    &&& forall|i: int|
        0 <= i < s.len() && mark(#[trigger] s[i]) ==> (if i == 0 {
            word.len() == 0
        } else {
            s[i - 1] == ' '
        }) && (i + 1 < s.len() ==> s[i + 1] == ' ')
}

/// Text that is normalised already.
pub open spec fn settled(s: Seq<char>) -> bool {
    settled_after(Seq::empty(), s)
}

/// The normalised form of a text begins with that of its first character.
pub proof fn lemma_normalized_front(s: Seq<char>)
    requires
        s.len() > 0,
    ensures
        normalized(s) == normalized_char(s[0]) + normalized(s.skip(1)),
    decreases s.len(),
{
    if s.len() == 1 {
        assert(s.drop_last() =~= Seq::empty());
        assert(s.skip(1) =~= Seq::empty());
        assert(normalized(s.drop_last()) =~= Seq::empty());
        assert(normalized(s) =~= normalized_char(s[0]) + normalized(s.skip(1)));
    } else {
        let front = s.drop_last();
        lemma_normalized_front(front);
        assert(front.skip(1) =~= s.skip(1).drop_last());
        assert(s.skip(1).last() == s.last());
        assert(front[0] == s[0]);
        assert(normalized(s) =~= normalized_char(s[0]) + normalized(s.skip(1)));
    }
}

/// A space ends the word in progress.
pub proof fn lemma_tokens_space(word: Seq<char>, x: Seq<char>)
    ensures
        tokens_after(word, seq![' '] + x) == pending(word) + tokens_after(Seq::empty(), x),
{
    assert((seq![' '] + x).skip(1) =~= x);
}

/// Any other character joins the word in progress.
pub proof fn lemma_tokens_char(word: Seq<char>, c: char, x: Seq<char>)
    requires
        c != ' ',
    ensures
        tokens_after(word, seq![c] + x) == tokens_after(word.push(c), x),
{
    assert((seq![c] + x).skip(1) =~= x);
}

/// Normalising text that is normalised already leaves its tokens as they
/// are, whatever word was in progress.
pub proof fn lemma_settled_tokens(word: Seq<char>, s: Seq<char>)
    requires
        settled_after(word, s),
    ensures
        tokens_after(word, normalized(s)) == tokens_after(word, s),
    decreases s.len(),
{
    if s.len() > 0 {
        let c = s[0];
        let rest = s.skip(1);
        let x = normalized(rest);
        let none = Seq::<char>::empty();
        lemma_normalized_front(s);
        assert(lowercase_of(c) == c);
        if c == ' ' || mark(c) {
            assert(settled_after(none, rest)) by {
                assert forall|i: int| 0 <= i < rest.len() implies lowercase_of(#[trigger] rest[i])
                    == rest[i] by {
                    assert(rest[i] == s[i + 1]);
                }
                assert forall|i: int| 0 <= i < rest.len() && mark(#[trigger] rest[i]) implies (if i
                    == 0 {
                    none.len() == 0
                } else {
                    rest[i - 1] == ' '
                }) && (i + 1 < rest.len() ==> rest[i + 1] == ' ') by {
                    assert(rest[i] == s[i + 1]);
                }
            }
            lemma_settled_tokens(none, rest);
        }
        if c == ' ' {
            if alphabetic(c) {
                assert(normalized(s) =~= seq![' '] + x);
                lemma_tokens_space(word, x);
            } else {
                assert(normalized(s) =~= seq![' '] + (seq![' '] + (seq![' '] + x)));
                lemma_tokens_space(word, seq![' '] + (seq![' '] + x));
                lemma_tokens_space(none, seq![' '] + x);
                lemma_tokens_space(none, x);
                assert(pending(word) + (pending(none) + (pending(none) + tokens_after(none, x)))
                    =~= pending(word) + tokens_after(none, x));
            }
        } else if alphabetic(c) {
            assert(settled_after(word.push(c), rest)) by {
                assert forall|i: int| 0 <= i < rest.len() implies lowercase_of(#[trigger] rest[i])
                    == rest[i] by {
                    assert(rest[i] == s[i + 1]);
                }
                assert forall|i: int| 0 <= i < rest.len() && mark(#[trigger] rest[i]) implies (if i
                    == 0 {
                    word.push(c).len() == 0
                } else {
                    rest[i - 1] == ' '
                }) && (i + 1 < rest.len() ==> rest[i + 1] == ' ') by {
                    assert(rest[i] == s[i + 1]);
                }
            }
            lemma_settled_tokens(word.push(c), rest);
            assert(normalized(s) =~= seq![c] + x);
            lemma_tokens_char(word, c, x);
        } else {
            assert(mark(s[0]));
            assert(word =~= none);
            assert(normalized(s) =~= seq![' '] + (seq![c] + (seq![' '] + x)));
            lemma_tokens_space(word, seq![c] + (seq![' '] + x));
            lemma_tokens_char(none, c, seq![' '] + x);
            lemma_tokens_space(none.push(c), x);
            assert(pending(none) + (pending(none.push(c)) + tokens_after(none, x)) =~= pending(
                none.push(c),
            ) + tokens_after(none, x));
            assert(tokens_after(word, s) == tokens_after(none.push(c), rest));
            if rest.len() == 0 {
                assert(tokens_after(none, x) =~= Seq::empty());
                assert(tokens_after(none.push(c), rest) == pending(none.push(c)));
                assert(pending(none.push(c)) + tokens_after(none, x) =~= pending(none.push(c)));
            } else {
                assert(rest[0] == s[1]);
                assert(tokens_after(none.push(c), rest) == pending(none.push(c)) + tokens_after(
                    none,
                    rest.skip(1),
                ));
                assert(tokens_after(none, rest) == pending(none) + tokens_after(
                    none,
                    rest.skip(1),
                ));
                assert(pending(none) + tokens_after(none, rest.skip(1)) =~= tokens_after(
                    none,
                    rest.skip(1),
                ));
            }
        }
    } else {
        assert(normalized(s) =~= s);
    }
}

/// Normalising text that is normalised already changes none of its tokens.
pub proof fn lemma_settled_unchanged(s: Seq<char>)
    requires
        settled(s),
    ensures
        tokens(normalized(s)) == tokens(s),
{
    lemma_settled_tokens(Seq::empty(), s);
}

/// A table in which every context has exactly one next token.
pub open spec fn unambiguous(table: Table) -> bool {
    forall|ctx: Seq<Seq<char>>| #[trigger] table.dom().contains(ctx) ==> table[ctx].len() == 1
}

/// Two sentences that follow an unambiguous table agree as far as both go.
pub proof fn lemma_common_prefix(
    table: Table,
    degree: nat,
    a: Seq<Seq<char>>,
    b: Seq<Seq<char>>,
    n: int,
)
    requires
        unambiguous(table),
        follows(table, degree, a),
        follows(table, degree, b),
        0 <= n <= a.len(),
        n <= b.len(),
    ensures
        a.take(n) == b.take(n),
    decreases n,
{
    if n == 0 {
        assert(a.take(0) =~= b.take(0));
    } else {
        lemma_common_prefix(table, degree, a, b, n - 1);
        let ctx = context_after(degree, a.take(n - 1));
        let row = row_of(table, ctx);
        assert(row_has(row, a[n - 1]));
        assert(row_has(row, b[n - 1]));
        lemma_one_token(table, ctx, a[n - 1], b[n - 1]);
        assert(a.take(n) =~= a.take(n - 1).push(a[n - 1]));
        assert(b.take(n) =~= b.take(n - 1).push(b[n - 1]));
    }
}

/// An unambiguous table produces one sentence at most: whatever the draws,
/// generation can only walk the one path that training laid down.
pub proof fn lemma_single_path(table: Table, degree: nat, a: Seq<Seq<char>>, b: Seq<Seq<char>>)
    requires
        unambiguous(table),
        produces(table, degree, a),
        produces(table, degree, b),
    ensures
        a == b,
{
    if a.len() <= b.len() {
        lemma_ends_together(table, degree, a, b);
    } else {
        lemma_ends_together(table, degree, b, a);
    }
}

/// Of two sentences that an unambiguous table produces, the shorter is the
/// whole of the longer.
proof fn lemma_ends_together(table: Table, degree: nat, a: Seq<Seq<char>>, b: Seq<Seq<char>>)
    requires
        unambiguous(table),
        produces(table, degree, a),
        produces(table, degree, b),
        a.len() <= b.len(),
    ensures
        a == b,
{
    let n = a.len() as int;
    lemma_common_prefix(table, degree, a, b, n);
    assert(a.take(n) =~= a);
    if n < b.len() {
        let ctx = context_after(degree, a);
        let row = row_of(table, ctx);
        assert(row_has(row, end_token()));
        assert(row_has(row, b[n])) by {
            assert(b.take(n) == a);
        }
        lemma_one_token(table, ctx, end_token(), b[n]);
        assert(b[n] != end_token());
    }
    assert(b.take(n) =~= b);
}

/// A context of an unambiguous table has one next token only.
proof fn lemma_one_token(table: Table, ctx: Seq<Seq<char>>, x: Seq<char>, y: Seq<char>)
    requires
        unambiguous(table),
        row_has(row_of(table, ctx), x),
        row_has(row_of(table, ctx), y),
    ensures
        x == y,
{
    let row = row_of(table, ctx);
    let j = choose|j: int| 0 <= j < row.len() && (#[trigger] row[j]).0 == x;
    let k = choose|k: int| 0 <= k < row.len() && (#[trigger] row[k]).0 == y;
    assert(table.dom().contains(ctx));
    assert(j == 0 && k == 0);
}

/// Every transition of the table, but those to the end token, leads to a
/// context that the table holds, or to `next`.
pub open spec fn leads_on(table: Table, next: Seq<Seq<char>>) -> bool {
    forall|c: Seq<Seq<char>>, x: Seq<char>|
        table.dom().contains(c) && #[trigger] row_has(table[c], x) && x != end_token()
            ==> table.dom().contains(slide(c, x)) || slide(c, x) == next
}

/// A table that generation cannot walk out of: every transition, but those
/// to the end token, leads to a context of the table or to the start.
pub open spec fn closed(table: Table, degree: nat) -> bool {
    leads_on(table, start_context(degree))
}

/// After one more sighting a row holds what it held, and the token seen.
pub proof fn lemma_observe_row_has(row: Row, tok: Seq<char>, x: Seq<char>)
    ensures
        row_has(observe_row(row, tok), x) <==> (row_has(row, x) || x == tok),
    decreases row.len(),
{
    let after = observe_row(row, tok);
    if row.len() == 0 {
        assert(after[0].0 == tok);
    } else if row[0].0 == tok {
        assert(row[0].0 == tok);
        if row_has(after, x) {
            let j = choose|j: int| 0 <= j < after.len() && (#[trigger] after[j]).0 == x;
            assert(row[j].0 == x);
        }
        if row_has(row, x) {
            let j = choose|j: int| 0 <= j < row.len() && (#[trigger] row[j]).0 == x;
            assert(after[j].0 == x);
        }
    } else {
        let rest = row.skip(1);
        let tail = observe_row(rest, tok);
        lemma_observe_row_has(rest, tok, x);
        if row_has(after, x) {
            let j = choose|j: int| 0 <= j < after.len() && (#[trigger] after[j]).0 == x;
            if j == 0 {
                assert(row[0].0 == x);
            } else {
                assert(tail[j - 1].0 == x);
                if row_has(rest, x) {
                    let k = choose|k: int| 0 <= k < rest.len() && (#[trigger] rest[k]).0 == x;
                    assert(row[k + 1].0 == x);
                }
            }
        }
        if row_has(row, x) {
            let j = choose|j: int| 0 <= j < row.len() && (#[trigger] row[j]).0 == x;
            if j == 0 {
                assert(after[0].0 == x);
            } else {
                assert(rest[j - 1].0 == x);
                let k = choose|k: int| 0 <= k < tail.len() && (#[trigger] tail[k]).0 == x;
                assert(after[k + 1].0 == x);
            }
        }
        if x == tok {
            let k = choose|k: int| 0 <= k < tail.len() && (#[trigger] tail[k]).0 == x;
            assert(after[k + 1].0 == x);
        }
    }
}

/// A sighting in the context that the table leads on to keeps the table
/// leading on: to the context that the token slides to, or, after the end
/// token, to any context.
pub proof fn lemma_observe_leads(
    table: Table,
    ctx: Seq<Seq<char>>,
    tok: Seq<char>,
    next: Seq<Seq<char>>,
)
    requires
        leads_on(table, ctx),
        tok == end_token() || next == slide(ctx, tok),
    ensures
        leads_on(observe(table, ctx, tok), next),
{
    let after = observe(table, ctx, tok);
    assert forall|c: Seq<Seq<char>>, x: Seq<char>|
        after.dom().contains(c) && #[trigger] row_has(after[c], x) && x != end_token() implies 
        after.dom().contains(slide(c, x)) || slide(c, x) == next by {
        if c == ctx {
            lemma_observe_row_has(row_of(table, ctx), tok, x);
            if x != tok {
                assert(row_has(row_of(table, ctx), x));
                assert(table.dom().contains(ctx));
                assert(row_has(table[c], x));
            }
        } else {
            assert(after[c] == table[c]);
            assert(row_has(table[c], x));
        }
    }
}

/// A table that holds nothing is closed.
pub proof fn lemma_empty_closed(degree: nat)
    ensures
        closed(Map::<Seq<Seq<char>>, Row>::empty(), degree),
{
}

/// Reading a token keeps the table leading on to the current context.
pub proof fn lemma_token_leads(t: Training, degree: nat, tok: Seq<char>)
    requires
        leads_on(t.table, t.context),
    ensures
        leads_on(feed_token(t, degree, tok).table, feed_token(t, degree, tok).context),
{
    let slid = slide(t.context, tok);
    lemma_observe_leads(t.table, t.context, tok, slid);
    if is_terminator(tok) {
        lemma_observe_leads(
            observe(t.table, t.context, tok),
            slid,
            end_token(),
            start_context(degree),
        );
    }
}

/// Reading tokens keeps the table leading on to the current context.
pub proof fn lemma_tokens_lead(t: Training, degree: nat, toks: Seq<Seq<char>>)
    requires
        leads_on(t.table, t.context),
    ensures
        leads_on(feed_tokens(t, degree, toks).table, feed_tokens(t, degree, toks).context),
    decreases toks.len(),
{
    if toks.len() > 0 {
        lemma_token_leads(t, degree, toks[0]);
        lemma_tokens_lead(feed_token(t, degree, toks[0]), degree, toks.skip(1));
    }
}

/// Reading lines keeps the table leading on to the current context.
pub proof fn lemma_lines_lead(t: Training, degree: nat, lines: Seq<Seq<char>>)
    requires
        leads_on(t.table, t.context),
    ensures
        leads_on(feed_lines(t, degree, lines).table, feed_lines(t, degree, lines).context),
    decreases lines.len(),
{
    if lines.len() > 0 {
        if blank(lines[0]) {
            lemma_observe_leads(t.table, t.context, end_token(), start_context(degree));
        } else {
            lemma_tokens_lead(t, degree, tokens(normalized(lines[0])));
        }
        lemma_lines_lead(feed_line(t, degree, lines[0]), degree, lines.skip(1));
    }
}

/// Training keeps a table closed: whatever the text, every context that a
/// sentence can reach has been given a way on or an end.
pub proof fn lemma_trained_closed(table: Table, degree: nat, lines: Seq<Seq<char>>)
    requires
        closed(table, degree),
    ensures
        closed(trained(table, degree, lines).table, degree),
{
    let t = Training { table, context: start_context(degree), steps: 0 };
    lemma_lines_lead(t, degree, lines);
    let read = feed_lines(t, degree, lines);
    assert(feed_tokens(t, degree, Seq::empty()) == t);
    if read.context != start_context(degree) {
        lemma_observe_leads(read.table, read.context, end_token(), start_context(degree));
    }
}

/// In a closed table that holds the start context, every sentence that
/// follows the table ends in a context that the table holds: generation
/// never meets a context that was not trained.
pub proof fn lemma_closed_never_strands(table: Table, degree: nat, s: Seq<Seq<char>>)
    requires
        closed(table, degree),
        table.dom().contains(start_context(degree)),
        follows(table, degree, s),
    ensures
        table.dom().contains(context_after(degree, s)),
    decreases s.len(),
{
    if s.len() > 0 {
        let front = s.drop_last();
        assert forall|i: int| 0 <= i < front.len() implies (#[trigger] front[i]) != end_token()
            && row_has(row_of(table, context_after(degree, front.take(i))), front[i]) by {
            assert(front[i] == s[i]);
            assert(front.take(i) =~= s.take(i));
        }
        lemma_closed_never_strands(table, degree, front);
        let c = context_after(degree, front);
        assert(s.take(s.len() - 1) =~= front);
        assert(row_has(row_of(table, c), s[s.len() - 1]));
        assert(row_has(table[c], s.last()));
    }
}

/// One more sighting of `tok` adds one to the count of `tok` and leaves
/// every other count of the row as it was.
pub proof fn lemma_observe_tally(row: Row, tok: Seq<char>, x: Seq<char>)
    ensures
        tally(observe_row(row, tok), x) == tally(row, x) + (if x == tok {
            1nat
        } else {
            0nat
        }),
    decreases row.len(),
{
    let after = observe_row(row, tok);
    if row.len() == 0 {
        assert(after.skip(1) =~= Seq::empty());
        assert(tally(after.skip(1), x) == 0);
    } else if row[0].0 == tok {
        assert(after.skip(1) =~= row.skip(1));
    } else {
        lemma_observe_tally(row.skip(1), tok, x);
        assert(after.skip(1) =~= observe_row(row.skip(1), tok));
    }
}

/// One more sighting of the transition from `ctx` to `tok` adds one to its
/// count and leaves every other count of the table as it was.
pub proof fn lemma_observe_seen(
    table: Table,
    ctx: Seq<Seq<char>>,
    tok: Seq<char>,
    c: Seq<Seq<char>>,
    x: Seq<char>,
)
    ensures
        seen(observe(table, ctx, tok), c, x) == seen(table, c, x) + (if c == ctx && x == tok {
            1nat
        } else {
            0nat
        }),
{
    if c == ctx {
        lemma_observe_tally(row_of(table, ctx), tok, x);
    } else {
        assert(row_of(observe(table, ctx, tok), c) == row_of(table, c));
    }
}

/// Reading a token lowers no count.
pub proof fn lemma_token_grows(
    t: Training,
    degree: nat,
    tok: Seq<char>,
    c: Seq<Seq<char>>,
    x: Seq<char>,
)
    ensures
        seen(feed_token(t, degree, tok).table, c, x) >= seen(t.table, c, x),
{
    let first = observe(t.table, t.context, tok);
    lemma_observe_seen(t.table, t.context, tok, c, x);
    lemma_observe_seen(first, slide(t.context, tok), end_token(), c, x);
}

/// Reading tokens lowers no count.
pub proof fn lemma_tokens_grow(
    t: Training,
    degree: nat,
    toks: Seq<Seq<char>>,
    c: Seq<Seq<char>>,
    x: Seq<char>,
)
    ensures
        seen(feed_tokens(t, degree, toks).table, c, x) >= seen(t.table, c, x),
    decreases toks.len(),
{
    if toks.len() > 0 {
        lemma_token_grows(t, degree, toks[0], c, x);
        lemma_tokens_grow(feed_token(t, degree, toks[0]), degree, toks.skip(1), c, x);
    }
}

/// Reading lines lowers no count.
pub proof fn lemma_lines_grow(
    t: Training,
    degree: nat,
    lines: Seq<Seq<char>>,
    c: Seq<Seq<char>>,
    x: Seq<char>,
)
    ensures
        seen(feed_lines(t, degree, lines).table, c, x) >= seen(t.table, c, x),
    decreases lines.len(),
{
    if lines.len() > 0 {
        if blank(lines[0]) {
            lemma_observe_seen(t.table, t.context, end_token(), c, x);
        } else {
            lemma_tokens_grow(t, degree, tokens(normalized(lines[0])), c, x);
        }
        lemma_lines_grow(feed_line(t, degree, lines[0]), degree, lines.skip(1), c, x);
    }
}

/// Training only ever raises counts: whatever the text, no transition is
/// seen less often after it than before.
pub proof fn lemma_trained_grows(
    table: Table,
    degree: nat,
    lines: Seq<Seq<char>>,
    c: Seq<Seq<char>>,
    x: Seq<char>,
)
    ensures
        seen(trained(table, degree, lines).table, c, x) >= seen(table, c, x),
{
    let t = Training { table, context: start_context(degree), steps: 0 };
    lemma_lines_grow(t, degree, lines, c, x);
    let read = feed_lines(t, degree, lines);
    assert(feed_tokens(t, degree, Seq::empty()) == t);
    lemma_observe_seen(read.table, read.context, end_token(), c, x);
}

} // verus!
