//! The chain itself: the table as it is stored, and the operations that
//! build it.

use vstd::prelude::*;
use vstd::string::*;
use crate::model::{
    close_sentence, completed, context_after, end_token, feed_line, feed_token, follows,
    is_terminator, lemma_completed_steps, lemma_observe_found, lemma_observe_new,
    lemma_observe_weight, lemma_room_observe, lemma_weight_bounds, observe, observe_row, produces,
    room, row_has, row_of, row_sound, slide, start_context, start_token, strands, table_sound,
    trained, weight, Row, Table, Training,
};
use crate::draw::{total, weighted_index};
use crate::laws::{closed, lemma_closed_never_strands, lemma_trained_closed};
use crate::text::{is_blank, normalize, normalized, split_tokens, words};

verus! {

/// One next token with the number of times it was seen.
pub struct Transition {
    token: String,
    count: u32,
}

/// One context with its transitions and their total weight.
pub struct State {
    context: Vec<String>,
    transitions: Vec<Transition>,
    total: u32,
}

/// An n-gram Markov chain over word tokens.
pub struct MarkovChain {
    states: Vec<State>,
    degree: u32,
    table: Ghost<Table>,
}

/// Why no sentence came out.
#[derive(Debug, PartialEq, Eq, Clone, Copy)]
pub enum GenerateError {
    /// The walk reached a context that the chain was never trained on.
    UntrainedContext,
    /// The sentence grew to the longest that a vector holds.
    TooLong,
}

/// Why a text was not learnt.
#[derive(Debug, PartialEq, Eq, Clone, Copy)]
pub enum TrainError {
    /// Some context would be seen more often than a `u32` counts.
    NoRoom,
}

/// Why a chain could not be made.
#[derive(Debug, PartialEq, Eq, Clone, Copy)]
pub enum ConfigError {
    /// A chain needs a context of at least one token.
    ZeroDegree,
}

/// The row that a sequence of stored transitions stands for.
pub closed spec fn row_view(ts: Seq<Transition>) -> Row {
    ts.map_values(|t: Transition| (t.token@, t.count as nat))
}

/// Whether two sequences of strings hold the same words.
fn same_words(a: &Vec<String>, b: &Vec<String>) -> (r: bool)
    ensures
        r == (words(a@) == words(b@)),
{
    if a.len() != b.len() {
        assert(words(a@).len() != words(b@).len());
        return false;
    }
    let mut i: usize = 0;
    while i < a.len()
        invariant
            i <= a.len(),
            a.len() == b.len(),
            forall|k: int| 0 <= k < i ==> (#[trigger] a@[k])@ == b@[k]@,
        decreases a.len() - i,
    {
        if a[i] != b[i] {
            assert(words(a@)[i as int] != words(b@)[i as int]);
            return false;
        }
        i += 1;
    }
    assert(words(a@) =~= words(b@));
    true
}

/// The context after `word`: all of `key` but its first token, then `word`.
fn slide_key(key: &Vec<String>, word: &String) -> (next: Vec<String>)
    requires
        key@.len() >= 1,
    ensures
        next@.len() == key@.len(),
        words(next@) == slide(words(key@), word@),
{
    let mut next: Vec<String> = Vec::new();
    let mut k: usize = 1;
    while k < key.len()
        invariant
            1 <= k <= key.len(),
            next@.len() == k - 1,
            forall|m: int| 0 <= m < k - 1 ==> (#[trigger] next@[m])@ == key@[m + 1]@,
        decreases key.len() - k,
    {
        next.push(key[k].clone());
        k += 1;
    }
    next.push(word.clone());
    assert(words(next@) =~= slide(words(key@), word@));
    next
}

impl State {
    /// The context that the state is kept under.
    pub closed spec fn key(&self) -> Seq<Seq<char>> {
        words(self.context@)
    }

    /// The transitions of the state.
    pub closed spec fn row(&self) -> Row {
        row_view(self.transitions@)
    }

    /// The row is sound, and `total` is its weight.
    pub closed spec fn wf(&self) -> bool {
        row_sound(self.row()) && self.total == weight(self.row())
    }

    /// The index of the transition to `token`, if the state holds one.
    fn find(&self, token: &String) -> (r: Option<usize>)
        ensures
            match r {
                Some(j) => j < self.row().len() && self.row()[j as int].0 == token@,
                None => forall|k: int| 0 <= k < self.row().len() ==> (#[trigger] self.row()[k]).0 != token@,
            },
    {
        let mut j: usize = 0;
        while j < self.transitions.len()
            invariant
                j <= self.transitions.len(),
                forall|k: int| 0 <= k < j ==> (#[trigger] self.row()[k]).0 != token@,
            decreases self.transitions.len() - j,
        {
            if self.transitions[j].token == *token {
                return Some(j);
            }
            j += 1;
        }
        None
    }

    /// A state that has seen one transition.
    fn first(context: Vec<String>, token: String) -> (s: State)
        ensures
            s.wf(),
            s.key() == words(context@),
            s.row() == observe_row(Seq::empty(), token@),
    {
        let mut transitions: Vec<Transition> = Vec::new();
        transitions.push(Transition { token, count: 1 });
        let s = State { context, transitions, total: 1 };
        proof {
            assert(s.row() =~= seq![(token@, 1nat)]);
            assert(s.row().skip(1) =~= Seq::empty());
            assert(weight(s.row().skip(1)) == 0);
        }
        s
    }

    /// Sees one more transition to `token`.
    fn observe(&mut self, token: String)
        requires
            old(self).wf(),
            weight(old(self).row()) < u32::MAX,
        ensures
            final(self).wf(),
            final(self).key() == old(self).key(),
            final(self).row() == observe_row(old(self).row(), token@),
    {
        let ghost before = self.row();
        match self.find(&token) {
            Some(j) => {
                proof {
                    lemma_observe_found(before, token@, j as int);
                    lemma_observe_weight(before, token@);
                    lemma_weight_bounds(before, j as int);
                }
                let count = self.transitions[j].count;
                self.transitions.set(j, Transition { token, count: count + 1 });
                self.total = self.total + 1;
                assert(self.row() =~= before.update(j as int, (token@, before[j as int].1 + 1)));
            },
            None => {
                proof {
                    lemma_observe_new(before, token@);
                    lemma_observe_weight(before, token@);
                }
                self.transitions.push(Transition { token, count: 1 });
                self.total = self.total + 1;
                assert(self.row() =~= before.push((token@, 1nat)));
            },
        }
    }
}

impl MarkovChain {
    /// The table that the chain has learnt.
    pub closed spec fn view(&self) -> Table {
        self.table@
    }

    /// The number of tokens in a context.
    pub closed spec fn order(&self) -> nat {
        self.degree as nat
    }

    /// What holds of every chain that this library hands out.
    pub closed spec fn wf(&self) -> bool {
        &&& self.degree >= 1
        &&& forall|i: int|
            0 <= i < self.states@.len() ==> {
                let s = #[trigger] self.states@[i];
                &&& s.wf()
                &&& s.key().len() == self.degree
                &&& self.table@.dom().contains(s.key())
                &&& self.table@[s.key()] == s.row()
            }
        &&& forall|k: Seq<Seq<char>>| #[trigger]
            self.table@.dom().contains(k) ==> exists|i: int|
                0 <= i < self.states@.len() && (#[trigger] self.states@[i]).key() == k
        &&& forall|i: int, j: int|
            0 <= i < self.states@.len() && 0 <= j < self.states@.len() && (
            #[trigger] self.states@[i]).key() == (#[trigger] self.states@[j]).key() ==> i == j
    }

    /// A chain of the given degree that has learnt nothing. A degree of zero
    /// is refused: such a chain would have no context to slide.
    pub fn new(n: u32) -> (r: Result<MarkovChain, ConfigError>)
        ensures
            n == 0 <==> r == Err::<MarkovChain, ConfigError>(ConfigError::ZeroDegree),
            n >= 1 ==> r is Ok && r->Ok_0.wf() && r->Ok_0.order() == n && r->Ok_0@ == Map::<
                Seq<Seq<char>>,
                Row,
            >::empty(),
    {
        if n == 0 {
            return Err(ConfigError::ZeroDegree);
        }
        Ok(MarkovChain { states: Vec::new(), degree: n, table: Ghost(Map::empty()) })
    }

    /// The index of the state for `key`, if the chain holds one.
    fn find_state(&self, key: &Vec<String>) -> (r: Option<usize>)
        ensures
            match r {
                Some(i) => i < self.states@.len() && self.states@[i as int].key() == words(key@),
                None => forall|k: int|
                    0 <= k < self.states@.len() ==> (#[trigger] self.states@[k]).key() != words(
                        key@,
                    ),
            },
    {
        let mut i: usize = 0;
        while i < self.states.len()
            invariant
                i <= self.states.len(),
                forall|k: int| 0 <= k < i ==> (#[trigger] self.states@[k]).key() != words(key@),
            decreases self.states.len() - i,
        {
            if same_words(&self.states[i].context, key) {
                return Some(i);
            }
            i += 1;
        }
        None
    }

    /// The start context: as many start tokens as the degree.
    pub fn start_state(&self) -> (key: Vec<String>)
        ensures
            words(key@) == start_context(self.order()),
    {
        let mut key: Vec<String> = Vec::new();
        let mut i: u32 = 0;
        while i < self.degree
            invariant
                i <= self.degree,
                key@.len() == i,
                forall|k: int| 0 <= k < i ==> (#[trigger] key@[k])@ == start_token(),
            decreases self.degree - i,
        {
            key.push(String::from_str("START"));
            i += 1;
        }
        assert(words(key@) =~= start_context(self.order()));
        key
    }

    /// Whether the chain holds transitions for `key`.
    pub fn knows(&self, key: &Vec<String>) -> (b: bool)
        requires
            self.wf(),
        ensures
            b == self@.dom().contains(words(key@)),
    {
        self.find_state(key).is_some()
    }

    /// The next token that the chain holds for `key` at `index`, in the
    /// order in which the tokens were first seen.
    pub fn transition_at(&self, key: &Vec<String>, index: usize) -> (tok: String)
        requires
            self.wf(),
            self@.dom().contains(words(key@)),
            index < self@[words(key@)].len(),
        ensures
            tok@ == self@[words(key@)][index as int].0,
    {
        match self.find_state(key) {
            Some(i) => self.states[i].transitions[index].token.clone(),
            None => unreached(),
        }
    }

    /// The counts that the chain holds for `key`, in the order in which the
    /// tokens were first seen.
    pub fn counts(&self, key: &Vec<String>) -> (ws: Vec<u32>)
        requires
            self.wf(),
        ensures
            ws@.len() == row_of(self@, words(key@)).len(),
            forall|j: int| 0 <= j < ws@.len() ==> (#[trigger] ws@[j]) == row_of(self@, words(key@))[j].1,
            total(ws@) == weight(row_of(self@, words(key@))),
    {
        let mut ws: Vec<u32> = Vec::new();
        match self.find_state(key) {
            Some(i) => {
                let state = &self.states[i];
                let ghost row = state.row();
                let mut j: usize = 0;
                assert(row.skip(0) =~= row);
                while j < state.transitions.len()
                    invariant
                        j <= state.transitions.len(),
                        row == state.row(),
                        ws@.len() == j,
                        forall|k: int| 0 <= k < j ==> (#[trigger] ws@[k]) == row[k].1,
                        total(ws@) + weight(row.skip(j as int)) == weight(row),
                    decreases state.transitions.len() - j,
                {
                    proof {
                        assert(row.skip(j as int).skip(1) =~= row.skip(j + 1));
                        assert(ws@.push(state.transitions@[j as int].count).drop_last() =~= ws@);
                    }
                    ws.push(state.transitions[j].count);
                    j += 1;
                }
            },
            None => {},
        }
        ws
    }

    /// Draws the next token after `key` at random, each token with a chance
    /// in proportion to its count. Whatever the draw, the token is one that
    /// the chain holds for `key`.
    pub fn choose_transition(&self, key: &Vec<String>) -> (tok: String)
        requires
            self.wf(),
            self@.dom().contains(words(key@)),
        ensures
            row_has(self@[words(key@)], tok@),
    {
        proof {
            self.lemma_sound();
        }
        let ws = self.counts(key);
        let index = weighted_index(&ws);
        self.transition_at(key, index)
    }

    /// Every context of a well-formed chain has as many tokens as the
    /// degree, and its transitions are not empty, have counts of at least
    /// one, name no token twice, and weigh no more than a `u32` holds.
    pub proof fn lemma_sound(&self)
        requires
            self.wf(),
        ensures
            self.order() >= 1,
            table_sound(self@, self.order()),
    {
        assert forall|ctx: Seq<Seq<char>>| #[trigger] self@.dom().contains(ctx) implies ctx.len()
            == self.order() && row_sound(self@[ctx]) by {
            let i = choose|i: int|
                0 <= i < self.states@.len() && (#[trigger] self.states@[i]).key() == ctx;
            assert(self.states@[i].wf());
        }
    }

    /// Generates one sentence: from the start context, draws token after
    /// token until the end token comes.
    pub fn create_sentence(&self) -> (r: Result<Vec<String>, GenerateError>)
        requires
            self.wf(),
        ensures
            match r {
                Ok(sentence) => produces(self@, self.order(), words(sentence@)),
                Err(GenerateError::UntrainedContext) => !(closed(self@, self.order())
                    && self@.dom().contains(start_context(self.order()))) && exists|
                    s: Seq<Seq<char>>,
                | strands(self@, self.order(), s),
                Err(GenerateError::TooLong) => exists|s: Seq<Seq<char>>|
                    follows(self@, self.order(), s) && s.len() == usize::MAX,
            },
    {
        let end = String::from_str("END");
        let mut sentence: Vec<String> = Vec::new();
        let mut key = self.start_state();
        proof {
            self.lemma_sound();
            assert(words(key@).len() == key@.len());
            assert(words(sentence@) =~= Seq::empty());
        }
        while sentence.len() < usize::MAX
            invariant
                self.wf(),
                end@ == end_token(),
                key@.len() == self.order(),
                self.order() >= 1,
                words(key@) == context_after(self.order(), words(sentence@)),
                follows(self@, self.order(), words(sentence@)),
            decreases usize::MAX - sentence.len(),
        {
            let ghost said = words(sentence@);
            let ghost ctx = words(key@);
            if !self.knows(&key) {
                proof {
                    assert(strands(self@, self.order(), said));
                    if closed(self@, self.order()) && self@.dom().contains(
                        start_context(self.order()),
                    ) {
                        lemma_closed_never_strands(self@, self.order(), said);
                    }
                }
                return Err(GenerateError::UntrainedContext);
            }
            let word = self.choose_transition(&key);
            if word == end {
                return Ok(sentence);
            }
            sentence.push(word.clone());
            key.remove(0);
            key.push(word);
            proof {
                let now = words(sentence@);
                assert(now =~= said.push(word@));
                assert(now.drop_last() =~= said);
                assert(words(key@) =~= slide(ctx, word@));
                assert forall|i: int| 0 <= i < now.len() implies (#[trigger] now[i])
                    != end_token() && row_has(
                    row_of(self@, context_after(self.order(), now.take(i))),
                    now[i],
                ) by {
                    if i < said.len() {
                        assert(now.take(i) =~= said.take(i));
                        assert(now[i] == said[i]);
                    } else {
                        assert(now.take(i) =~= said);
                    }
                }
            }
        }
        assert(follows(self@, self.order(), words(sentence@)) && words(sentence@).len() == usize::MAX);
        Err(GenerateError::TooLong)
    }

    /// Records one more sighting of the transition from `key` to `val`.
    pub fn update_states(&mut self, key: Vec<String>, val: &str)
        requires
            old(self).wf(),
            key@.len() == old(self).order(),
            weight(row_of(old(self)@, words(key@))) < u32::MAX,
        ensures
            final(self).wf(),
            final(self).order() == old(self).order(),
            final(self)@ == observe(old(self)@, words(key@), val@),
    {
        let token = val.to_owned();
        let ghost ctx = words(key@);
        let ghost before = self.states@;
        let ghost after = observe(self@, ctx, val@);
        match self.find_state(&key) {
            Some(i) => {
                self.states[i].observe(token);
                self.table = Ghost(after);
                proof {
                    self.lemma_rebuilt(*old(self), ctx, i as int);
                }
            },
            None => {
                assert(!self@.dom().contains(ctx));
                let state = State::first(key, token);
                self.states.push(state);
                self.table = Ghost(after);
                proof {
                    assert(self.states@.drop_last() == before);
                    self.lemma_rebuilt(*old(self), ctx, before.len() as int);
                }
            },
        }
    }

    /// Records one sighting in a table with room for it and `n` more.
    fn record(&mut self, key: Vec<String>, val: &str, Ghost(n): Ghost<nat>)
        requires
            old(self).wf(),
            key@.len() == old(self).order(),
            room(old(self)@, n + 1),
        ensures
            final(self).wf(),
            final(self).order() == old(self).order(),
            final(self)@ == observe(old(self)@, words(key@), val@),
            room(final(self)@, n),
    {
        proof {
            lemma_room_observe(self@, words(key@), val@, n);
        }
        self.update_states(key, val);
    }

    /// Reads one token of training text in the context `key`, and returns
    /// the context for the token after it.
    fn feed(
        &mut self,
        key: Vec<String>,
        word: &String,
        Ghost(t): Ghost<Training>,
        Ghost(n): Ghost<nat>,
    ) -> (next: Vec<String>)
        requires
            old(self).wf(),
            old(self).order() >= 1,
            key@.len() == old(self).order(),
            t.table == old(self)@,
            t.context == words(key@),
            room(
                old(self)@,
                (n + feed_token(t, old(self).order(), word@).steps - t.steps) as nat,
            ),
        ensures
            final(self).wf(),
            final(self).order() == old(self).order(),
            next@.len() == old(self).order(),
            final(self)@ == feed_token(t, old(self).order(), word@).table,
            words(next@) == feed_token(t, old(self).order(), word@).context,
            room(final(self)@, n),
    {
        let next = slide_key(&key, word);
        self.record(key, word.as_str(), Ghost(if is_terminator(word@) { n + 1 } else { n }));
        let dot = String::from_str(".");
        let question = String::from_str("?");
        let bang = String::from_str("!");
        let ends = *word == dot || *word == question || *word == bang;
        assert(ends == is_terminator(word@));
        if ends {
            self.record(next, "END", Ghost(n));
            let start = self.start_state();
            assert(words(start@).len() == start@.len());
            start
        } else {
            next
        }
    }

    /// Normalises one line of training text: every character in lower case,
    /// and every character that is not alphabetic set between two spaces.
    pub fn process_training_line(s: String) -> (out: String)
        ensures
            out@ == normalized(s@),
    {
        normalize(s.as_str())
    }

    /// Trains the chain on a text, given line by line.
    pub fn add_training_data(&mut self, lines: &Vec<String>)
        requires
            old(self).wf(),
            room(old(self)@, trained(old(self)@, old(self).order(), words(lines@)).steps),
        ensures
            final(self).wf(),
            final(self).order() == old(self).order(),
            final(self)@ == trained(old(self)@, old(self).order(), words(lines@)).table,
            closed(old(self)@, old(self).order()) ==> closed(final(self)@, old(self).order()),
    {
        let ghost degree = self.order();
        let ghost text = words(lines@);
        let ghost goal = trained(self@, degree, text);
        let ghost mut t = Training { table: self@, context: start_context(degree), steps: 0 };
        let mut key = self.start_state();
        proof {
            if closed(self@, degree) {
                lemma_trained_closed(self@, degree, text);
            }
            self.lemma_sound();
            assert(words(key@).len() == key@.len());
            assert(text.skip(0) =~= text);
        }
        let mut i: usize = 0;
        while i < lines.len()
            invariant
                i <= lines.len(),
                self.wf(),
                self.order() == degree,
                degree >= 1,
                text == words(lines@),
                key@.len() == degree,
                t.table == self@,
                t.context == words(key@),
                t.steps <= goal.steps,
                room(self@, (goal.steps - t.steps) as nat),
                completed(t, degree, Seq::empty(), text.skip(i as int)) == goal,
            decreases lines.len() - i,
        {
            let line = &lines[i];
            let ghost rest = text.skip(i + 1);
            proof {
                assert(text.skip(i as int).skip(1) =~= rest);
                assert(text.skip(i as int)[0] == line@);
                assert(completed(feed_line(t, degree, line@), degree, Seq::empty(), rest) == goal);
            }
            if is_blank(line.as_str()) {
                proof {
                    lemma_completed_steps(close_sentence(t, degree), degree, Seq::empty(), rest);
                }
                self.record(key, "END", Ghost((goal.steps - t.steps - 1) as nat));
                key = self.start_state();
                proof {
                    t = close_sentence(t, degree);
                    assert(words(key@).len() == key@.len());
                }
            } else {
                let processed = MarkovChain::process_training_line(line.clone());
                let toks = split_tokens(processed.as_str());
                let ghost tk = words(toks@);
                proof {
                    assert(tk.skip(0) =~= tk);
                }
                let mut j: usize = 0;
                while j < toks.len()
                    invariant
                        j <= toks.len(),
                        self.wf(),
                        self.order() == degree,
                        degree >= 1,
                        tk == words(toks@),
                        key@.len() == degree,
                        t.table == self@,
                        t.context == words(key@),
                        t.steps <= goal.steps,
                        room(self@, (goal.steps - t.steps) as nat),
                        completed(t, degree, tk.skip(j as int), rest) == goal,
                    decreases toks.len() - j,
                {
                    let word = &toks[j];
                    let ghost t2 = feed_token(t, degree, word@);
                    proof {
                        assert(tk.skip(j as int).skip(1) =~= tk.skip(j + 1));
                        assert(tk.skip(j as int)[0] == word@);
                        lemma_completed_steps(t2, degree, tk.skip(j + 1), rest);
                    }
                    key = self.feed(key, word, Ghost(t), Ghost((goal.steps - t2.steps) as nat));
                    proof {
                        t = t2;
                    }
                    j += 1;
                }
            }
            i += 1;
        }
        let start = self.start_state();
        if !same_words(&key, &start) {
            proof {
                assert(goal == close_sentence(t, degree));
            }
            self.record(key, "END", Ghost(0));
        }
    }

    /// The number of sightings that training on `lines` records, unless it
    /// is more than a `u32` holds.
    pub fn training_steps(&self, lines: &Vec<String>) -> (r: Option<u32>)
        requires
            self.wf(),
        ensures
            match r {
                Some(n) => n == trained(self@, self.order(), words(lines@)).steps,
                None => trained(self@, self.order(), words(lines@)).steps > u32::MAX,
            },
    {
        let ghost degree = self.order();
        let ghost text = words(lines@);
        let ghost goal = trained(self@, degree, text);
        let ghost mut t = Training { table: self@, context: start_context(degree), steps: 0 };
        let dot = String::from_str(".");
        let question = String::from_str("?");
        let bang = String::from_str("!");
        let mut key = self.start_state();
        let mut count: u32 = 0;
        proof {
            self.lemma_sound();
            assert(words(key@).len() == key@.len());
            assert(text.skip(0) =~= text);
        }
        let mut i: usize = 0;
        while i < lines.len()
            invariant
                i <= lines.len(),
                self.order() == degree,
                degree >= 1,
                text == words(lines@),
                key@.len() == degree,
                dot@ == "."@,
                question@ == "?"@,
                bang@ == "!"@,
                t.context == words(key@),
                t.steps == count,
                goal == trained(self@, degree, text),
                completed(t, degree, Seq::empty(), text.skip(i as int)) == goal,
            decreases lines.len() - i,
        {
            let line = &lines[i];
            let ghost rest = text.skip(i + 1);
            proof {
                assert(text.skip(i as int).skip(1) =~= rest);
                assert(text.skip(i as int)[0] == line@);
                assert(completed(feed_line(t, degree, line@), degree, Seq::empty(), rest) == goal);
            }
            if is_blank(line.as_str()) {
                proof {
                    lemma_completed_steps(close_sentence(t, degree), degree, Seq::empty(), rest);
                }
                if count == u32::MAX {
                    return None;
                }
                count += 1;
                key = self.start_state();
                proof {
                    t = close_sentence(t, degree);
                    assert(words(key@).len() == key@.len());
                }
            } else {
                let processed = MarkovChain::process_training_line(line.clone());
                let toks = split_tokens(processed.as_str());
                let ghost tk = words(toks@);
                proof {
                    assert(tk.skip(0) =~= tk);
                }
                let mut j: usize = 0;
                while j < toks.len()
                    invariant
                        j <= toks.len(),
                        self.order() == degree,
                        degree >= 1,
                        tk == words(toks@),
                        text == words(lines@),
                        key@.len() == degree,
                        dot@ == "."@,
                        question@ == "?"@,
                        bang@ == "!"@,
                        t.context == words(key@),
                        t.steps == count,
                        goal == trained(self@, degree, text),
                goal == trained(self@, degree, text),
                        completed(t, degree, tk.skip(j as int), rest) == goal,
                    decreases toks.len() - j,
                {
                    let word = &toks[j];
                    let ghost t2 = feed_token(t, degree, word@);
                    proof {
                        assert(tk.skip(j as int).skip(1) =~= tk.skip(j + 1));
                        assert(tk.skip(j as int)[0] == word@);
                        lemma_completed_steps(t2, degree, tk.skip(j + 1), rest);
                    }
                    let ends = *word == dot || *word == question || *word == bang;
                    assert(ends == is_terminator(word@));
                    let more: u32 = if ends { 2 } else { 1 };
                    if count > u32::MAX - more {
                        return None;
                    }
                    count += more;
                    if ends {
                        key = self.start_state();
                        assert(words(key@).len() == key@.len());
                    } else {
                        key = slide_key(&key, word);
                    }
                    proof {
                        t = t2;
                    }
                    j += 1;
                }
            }
            i += 1;
        }
        let start = self.start_state();
        if !same_words(&key, &start) {
            if count == u32::MAX {
                return None;
            }
            count += 1;
        }
        Some(count)
    }

    /// The greatest total weight among the contexts of the chain.
    pub fn heaviest(&self) -> (m: u32)
        requires
            self.wf(),
        ensures
            forall|ctx: Seq<Seq<char>>| weight(#[trigger] row_of(self@, ctx)) <= m,
            exists|ctx: Seq<Seq<char>>| weight(#[trigger] row_of(self@, ctx)) == m,
    {
        let mut m: u32 = 0;
        let ghost mut at: Seq<Seq<char>> = Seq::empty();
        let mut i: usize = 0;
        proof {
            if self.states@.len() == 0 {
                assert(!self@.dom().contains(at));
            }
        }
        while i < self.states.len()
            invariant
                i <= self.states.len(),
                self.wf(),
                forall|k: int| 0 <= k < i ==> (#[trigger] self.states@[k]).total <= m,
                (i == 0 && m == 0) || weight(row_of(self@, at)) == m,
            decreases self.states.len() - i,
        {
            if self.states[i].total > m || i == 0 {
                m = self.states[i].total;
                proof {
                    at = self.states@[i as int].key();
                    assert(self.states@[i as int].wf());
                }
            }
            i += 1;
        }
        proof {
            assert(weight(row_of(self@, at)) == m);
            assert forall|ctx: Seq<Seq<char>>| weight(#[trigger] row_of(self@, ctx)) <= m by {
                if self@.dom().contains(ctx) {
                    let k = choose|k: int|
                        0 <= k < self.states@.len() && (#[trigger] self.states@[k]).key() == ctx;
                    assert(self.states@[k].wf());
                }
            }
        }
        m
    }

    /// Trains the chain on a text, given line by line, if every count stays
    /// within a `u32`; else leaves the chain as it is.
    pub fn try_add_training_data(&mut self, lines: &Vec<String>) -> (r: Result<(), TrainError>)
        requires
            old(self).wf(),
        ensures
            final(self).wf(),
            final(self).order() == old(self).order(),
            match r {
                Ok(_) => room(old(self)@, trained(old(self)@, old(self).order(), words(lines@)).steps)
                    && final(self)@ == trained(
                    old(self)@,
                    old(self).order(),
                    words(lines@),
                ).table,
                Err(_) => !room(
                    old(self)@,
                    trained(old(self)@, old(self).order(), words(lines@)).steps,
                ) && final(self)@ == old(self)@,
            },
    {
        let heaviest = self.heaviest();
        match self.training_steps(lines) {
            Some(n) => {
                if n <= u32::MAX - heaviest {
                    self.add_training_data(lines);
                    Ok(())
                } else {
                    Err(TrainError::NoRoom)
                }
            },
            None => Err(TrainError::NoRoom),
        }
    }

    /// A chain stays well formed when one state is replaced or added at
    /// `i`, and the table holds its new row under its key.
    proof fn lemma_rebuilt(self, prev: MarkovChain, ctx: Seq<Seq<char>>, i: int)
        requires
            prev.wf(),
            self.degree == prev.degree,
            0 <= i < self.states@.len(),
            self.states@.len() == prev.states@.len() || (i == prev.states@.len()
                && self.states@.len() == i + 1),
            forall|k: int| 0 <= k < prev.states@.len() && k != i ==> self.states@[k] == prev.states@[k],
            i < prev.states@.len() ==> prev.states@[i].key() == ctx,
            i == prev.states@.len() ==> !prev.table@.dom().contains(ctx),
            self.states@[i].wf(),
            self.states@[i].key() == ctx,
            ctx.len() == self.degree,
            self.table@ == prev.table@.insert(ctx, self.states@[i].row()),
        ensures
            self.wf(),
    {
        assert forall|k: int| 0 <= k < self.states@.len() implies {
            let s = #[trigger] self.states@[k];
            &&& s.wf()
            &&& s.key().len() == self.degree
            &&& self.table@.dom().contains(s.key())
            &&& self.table@[s.key()] == s.row()
        } by {
            if k != i {
                assert(self.states@[k] == prev.states@[k]);
                if i < prev.states@.len() {
                    assert(prev.states@[i].key() == ctx);
                }
            }
        }
        assert forall|k: Seq<Seq<char>>| #[trigger] self.table@.dom().contains(k) implies exists|
            j: int,
        |
            0 <= j < self.states@.len() && (#[trigger] self.states@[j]).key() == k by {
            if k == ctx {
                assert(self.states@[i].key() == k);
            } else {
                assert(prev.table@.dom().contains(k));
                let j = choose|j: int|
                    0 <= j < prev.states@.len() && (#[trigger] prev.states@[j]).key() == k;
                assert(self.states@[j] == prev.states@[j]);
            }
        }
        assert forall|a: int, b: int|
            0 <= a < self.states@.len() && 0 <= b < self.states@.len() && (
            #[trigger] self.states@[a]).key() == (#[trigger] self.states@[b]).key() implies a
            == b by {
            if a != i {
                assert(self.states@[a] == prev.states@[a]);
            }
            if b != i {
                assert(self.states@[b] == prev.states@[b]);
            }
            if i < prev.states@.len() {
                assert(prev.states@[i].key() == ctx);
            }
        }
    }
}

} // verus!
