use vstd::prelude::*;
use super::derivation::{
    lemma_derives_push, lemma_derives_reduce, lemma_reversed_push, lemma_terminals_push,
    reversed, rm_derives, terminals,
};
use super::table::{Action, LR1Table, START_STATE};
use crate::grammar::Symbol;
use crate::index_set::column_of;

verus! {

/// What the parser reports while it runs.
#[derive(Debug, PartialEq, Eq)]
pub enum Event<T> {
    /// A token was shifted.
    Shift(T),
    /// The topmost `child_count` symbols were reduced to `var` by
    /// `production`.
    Reduce { var: usize, child_count: usize, production: usize },
}

/// Why parsing stopped.
#[derive(Debug, PartialEq, Eq)]
pub enum ParseError<E> {
    /// The input handed out an error in place of a token.
    InputError(E),
    /// The table has no action for `word` in `state`.
    InvalidAction { step: usize, state: usize, word: Option<usize> },
    /// The table has no state to go to from `state` once `var` has been
    /// recognised.
    InvalidGoto { step: usize, state: usize, var: usize },
}


/// The state of a parser.
pub ghost struct ParseState<T, E> {
    /// The states entered and not yet left, the current one last.
    pub stack: Seq<usize>,
    /// The token looked at, if there is one.
    pub word: Option<T>,
    /// Its class.
    pub class: Option<usize>,
    /// What to do next.
    pub action: Action,
    /// Number of tokens shifted.
    pub steps: nat,
    /// The input that the parser holds and has not yet looked at.
    pub pending: Seq<Result<T, E>>,
    /// The symbols on which the states were entered, one for each state
    /// but the initial one.
    pub symbols: Seq<Symbol>,
    /// The classes of the tokens shifted.
    pub shifted: Seq<usize>,
    /// The productions of the reductions reported.
    pub reduced: Seq<usize>,
}

/// The state of a parser that has not begun on the input `pending`: no
/// state is entered, no token is looked at, and what is due is to enter
/// the initial state.
pub open spec fn initial<T, E>(pending: Seq<Result<T, E>>) -> ParseState<T, E> {
    ParseState {
        stack: Seq::empty(),
        word: None,
        class: None,
        action: Action::Shift(START_STATE),
        steps: 0,
        pending,
        symbols: Seq::empty(),
        shifted: Seq::empty(),
        reduced: Seq::empty(),
    }
}

/// The action of `state` on a lookahead of class `class`; none for a
/// class that the table has no column for.
pub open spec fn looked_up<P: LR1Table>(table: &P, state: int, class: Option<usize>) -> Action {
    if column_of(class) < table.column_total() {
        table.action_at(state, column_of(class))
    } else {
        Action::Invalid
    }
}

/// The state entered as number `i + 1` was entered from the one entered as
/// number `i` on the symbol numbered `i`: by a shift on a terminal, or by
/// the GOTO entry of a variable.
pub open spec fn labelled<P: LR1Table>(
    table: &P,
    stack: Seq<usize>,
    symbols: Seq<Symbol>,
    i: int,
) -> bool {
    match symbols[i] {
        Symbol::Terminal(c) => c + 1 < table.column_total() && table.action_at(
            stack[i] as int,
            c + 1,
        ) == Action::Shift(stack[i + 1]),
        Symbol::Variable(v) => v < table.var_total() && table.goto_at(stack[i] as int, v as int)
            == Some(stack[i + 1]),
    }
}

/// The states entered lead from the initial state, one to the next, on the
/// symbols.
pub open spec fn on_path<P: LR1Table>(table: &P, stack: Seq<usize>, symbols: Seq<Symbol>) -> bool {
    &&& stack.len() >= 1
    &&& symbols.len() == stack.len() - 1
    &&& stack[0] == START_STATE
    &&& forall|i: int| 0 <= i < stack.len() ==> (#[trigger] stack[i]) < table.state_total()
    &&& forall|i: int| 0 <= i < symbols.len() ==> #[trigger] labelled(table, stack, symbols, i)
}

/// A state entered as number `m` holds no item with the dot further right
/// than position `m`: that many states lie under it.
pub proof fn lemma_depth<P: LR1Table>(
    table: &P,
    stack: Seq<usize>,
    symbols: Seq<Symbol>,
    m: int,
    production: int,
    pos: int,
)
    requires
        table.wf(),
        on_path(table, stack, symbols),
        0 <= m < stack.len(),
        table.holds_item(stack[m] as int, production, pos),
    ensures
        pos <= m,
    decreases m,
{
    if m == 0 {
        table.lemma_grounded(0, 0, 0, production, pos);
    } else if pos >= 1 {
        let q = stack[m - 1] as int;
        assert(labelled(table, stack, symbols, m - 1));
        match symbols[m - 1] {
            Symbol::Terminal(c) => {
                table.lemma_grounded(q, c + 1, 0, production, pos);
            },
            Symbol::Variable(v) => {
                table.lemma_grounded(q, 0, v as int, production, pos);
            },
        }
        lemma_depth(table, stack, symbols, m - 1, production, pos - 1);
    }
}

/// A state entered as number `m` that holds an item with the dot before
/// position `pos` has, `j` states down, a state that holds the item with
/// the dot `j` positions further left; and the `j` states above that one
/// were entered on the `j` symbols in front of the dot.
pub proof fn lemma_descend<P: LR1Table>(
    table: &P,
    stack: Seq<usize>,
    symbols: Seq<Symbol>,
    m: int,
    production: int,
    pos: int,
    j: int,
)
    requires
        table.wf(),
        on_path(table, stack, symbols),
        0 <= m < stack.len(),
        table.holds_item(stack[m] as int, production, pos),
        0 <= j <= pos,
    ensures
        j <= m,
        table.holds_item(stack[m - j] as int, production, pos - j),
        forall|e: int|
            m - j <= e < m ==> #[trigger] symbols[e] == table.rhs_of(production)[pos - (m - e)],
    decreases j,
{
    lemma_depth(table, stack, symbols, m, production, pos);
    if j > 0 {
        let q = stack[m - 1] as int;
        assert(labelled(table, stack, symbols, m - 1));
        match symbols[m - 1] {
            Symbol::Terminal(c) => {
                table.lemma_grounded(q, c + 1, 0, production, pos);
                table.lemma_rooted(q, c + 1, 0, production, pos);
            },
            Symbol::Variable(v) => {
                table.lemma_grounded(q, 0, v as int, production, pos);
                table.lemma_rooted(q, 0, v as int, production, pos);
            },
        }
        lemma_descend(table, stack, symbols, m - 1, production, pos - 1, j - 1);
    }
}

/// Only the first of the states entered is the initial state.
pub proof fn lemma_left_start<P: LR1Table>(
    table: &P,
    stack: Seq<usize>,
    symbols: Seq<Symbol>,
    i: int,
)
    requires
        table.wf(),
        on_path(table, stack, symbols),
        1 <= i < stack.len(),
    ensures
        stack[i] != 0,
{
    assert(labelled(table, stack, symbols, i - 1));
    match symbols[i - 1] {
        Symbol::Terminal(c) => {
            table.lemma_rooted(stack[i - 1] as int, c + 1, 0, 0, 0);
        },
        Symbol::Variable(v) => {
            table.lemma_rooted(stack[i - 1] as int, 0, v as int, 0, 0);
        },
    }
}

/// The classifier can be asked for the class of any token.
pub open spec fn accepts_all<T, F: Fn(&T) -> usize>(f: F) -> bool {
    forall|t: T| #[trigger] f.requires((&t,))
}


/// What the input hands out next: its first item, or `None` once it is
/// exhausted.
pub open spec fn front<T, E>(pending: Seq<Result<T, E>>) -> Option<Result<T, E>> {
    if pending.len() > 0 {
        Some(pending[0])
    } else {
        None
    }
}

/// The input behind its first item.
pub open spec fn behind<T, E>(pending: Seq<Result<T, E>>) -> Seq<Result<T, E>> {
    if pending.len() > 0 {
        pending.skip(1)
    } else {
        pending
    }
}

/// The token that the input handed out, if it handed out one.
pub open spec fn token_of<T, E>(item: Option<Result<T, E>>) -> Option<T> {
    match item {
        Some(Ok(t)) => Some(t),
        _ => None,
    }
}

/// `class` is what the classifier gives for the lookahead `word`; none
/// where there is no lookahead.
pub open spec fn classified<T, F: Fn(&T) -> usize>(
    f: F,
    word: Option<T>,
    class: Option<usize>,
) -> bool {
    match word {
        Some(t) => class matches Some(c) && f.ensures((&t,), c),
        None => class is None,
    }
}

/// The first thing a parser does, on what the input handed out first: an
/// error of the input changes nothing; otherwise the token, if there is
/// one, becomes the lookahead, the initial state is entered, and what is
/// due is the action of that state on the lookahead.
pub open spec fn begun<P: LR1Table, T, E, F: Fn(&T) -> usize>(
    table: &P,
    f: F,
    s0: ParseState<T, E>,
    item: Option<Result<T, E>>,
    s1: ParseState<T, E>,
) -> bool {
    if item matches Some(Err(_)) {
        s1 == s0
    } else {
        &&& classified(f, token_of(item), s1.class)
        &&& s1 == (ParseState {
            stack: seq![START_STATE],
            word: token_of(item),
            class: s1.class,
            action: looked_up(table, START_STATE as int, s1.class),
            ..s0
        })
    }
}

/// One action of a parser that has begun, from state `s0` to state `s1`
/// with result `r`, where `item` is what the input handed out for it.
///
/// * `Accept` ends the parse: nothing is reported and nothing changes.
/// * `Invalid` reports the state and the class of the lookahead.
/// * `Shift(s)` reports the lookahead as shifted, takes the token handed
///   out as the new lookahead and enters `s` on the terminal shifted; an
///   error handed out is reported in place of that, and nothing changes.
/// * `Reduce(p)` leaves as many states as `p` has symbols, enters, on the
///   variable of `p`, the state that GOTO gives for the state then on top,
///   and reports the reduction; where GOTO gives none, that is reported,
///   and no action is left to take.
pub open spec fn advanced<P: LR1Table, T, E, F: Fn(&T) -> usize>(
    table: &P,
    f: F,
    s0: ParseState<T, E>,
    item: Option<Result<T, E>>,
    s1: ParseState<T, E>,
    r: Option<Result<Event<T>, ParseError<E>>>,
) -> bool {
    match s0.action {
        Action::Accept => r is None && s1 == s0,
        Action::Invalid => r == Some(
            Err::<Event<T>, ParseError<E>>(
                ParseError::InvalidAction {
                    step: s0.steps as usize,
                    state: s0.stack.last(),
                    word: s0.class,
                },
            ),
        ) && s1 == s0,
        Action::Shift(state) => if item matches Some(Err(_)) {
            r == Some(Err::<Event<T>, ParseError<E>>(ParseError::InputError(item->0->Err_0)))
                && s1 == s0
        } else {
            &&& s0.word matches Some(w) && r == Some(
                Ok::<Event<T>, ParseError<E>>(Event::Shift(w)),
            )
            &&& s0.class matches Some(c) && s1 == (ParseState {
                stack: s0.stack.push(state),
                word: token_of(item),
                class: s1.class,
                action: looked_up(table, state as int, s1.class),
                steps: s0.steps + 1,
                symbols: s0.symbols.push(Symbol::Terminal(c)),
                shifted: s0.shifted.push(c),
                ..s0
            })
            &&& classified(f, token_of(item), s1.class)
        },
        Action::Reduce(production) => {
            let reduction = table.reduction_at(production as int);
            let base = s0.stack.take(s0.stack.len() - reduction.count);
            match table.goto_at(base.last() as int, reduction.var as int) {
                Some(state) => {
                    &&& r == Some(
                        Ok::<Event<T>, ParseError<E>>(
                            Event::Reduce {
                                var: reduction.var,
                                child_count: reduction.count,
                                production,
                            },
                        ),
                    )
                    &&& s1 == (ParseState {
                        stack: base.push(state),
                        action: looked_up(table, state as int, s0.class),
                        symbols: s0.symbols.take(s0.symbols.len() - reduction.count).push(
                            Symbol::Variable(reduction.var),
                        ),
                        reduced: s0.reduced.push(production),
                        ..s0
                    })
                },
                None => {
                    &&& r == Some(
                        Err::<Event<T>, ParseError<E>>(
                            ParseError::InvalidGoto {
                                step: s0.steps as usize,
                                state: base.last(),
                                var: reduction.var,
                            },
                        ),
                    )
                    &&& s1 == (ParseState {
                        stack: base,
                        action: Action::Invalid,
                        symbols: s0.symbols.take(s0.symbols.len() - reduction.count),
                        ..s0
                    })
                },
            }
        },
    }
}

/// One action of a parser that has begun and takes from its own input
/// what the action asks for: a shift takes the first item of the input,
/// no other action touches the input.
pub open spec fn acted<P: LR1Table, T, E, F: Fn(&T) -> usize>(
    table: &P,
    f: F,
    s0: ParseState<T, E>,
    s1: ParseState<T, E>,
    r: Option<Result<Event<T>, ParseError<E>>>,
) -> bool {
    if s0.action is Shift {
        advanced(
            table,
            f,
            ParseState { pending: behind(s0.pending), ..s0 },
            front(s0.pending),
            s1,
            r,
        )
    } else {
        advanced(table, f, s0, None, s1, r)
    }
}

/// One step of a parser on its own input, from state `s0` to state `s1`
/// with result `r`.
///
/// A parser that has not begun takes the first item of the input. If that
/// is an error, the error is reported and only the input moves on.
/// Otherwise the parser begins on it, which reports nothing, and goes on
/// with the action then due. A parser that has begun takes the action
/// due.
pub open spec fn stepped<P: LR1Table, T, E, F: Fn(&T) -> usize>(
    table: &P,
    f: F,
    s0: ParseState<T, E>,
    s1: ParseState<T, E>,
    r: Option<Result<Event<T>, ParseError<E>>>,
) -> bool {
    if s0.stack.len() == 0 {
        let taken = ParseState { pending: behind(s0.pending), ..s0 };
        if front(s0.pending) matches Some(Err(_)) {
            r == Some(
                Err::<Event<T>, ParseError<E>>(
                    ParseError::InputError(front(s0.pending)->0->Err_0),
                ),
            ) && s1 == taken
        } else {
            exists|mid: ParseState<T, E>| #[trigger]
                begun(table, f, taken, front(s0.pending), mid) && acted(table, f, mid, s1, r)
        }
    } else {
        acted(table, f, s0, s1, r)
    }
}

/// A parser: runs a table over a sequence of tokens and reports, step by
/// step, the tokens shifted and the reductions made.
///
/// The parser either works through an input of its own, by `next`, or is
/// handed what the input gives, item by item, by `enter` and `advance`.
pub struct Parse<'a, P, T, E, F> {
    table: &'a P,
    input: Vec<Result<T, E>>,  // what is still to come, the next token last
    f: F,
    step: usize,
    next_word: Option<T>,
    next_class: Option<usize>,
    next_action: Action,
    state_history: Vec<usize>,
    symbols: Ghost<Seq<Symbol>>,
    shifted: Ghost<Seq<usize>>,
    reduced: Ghost<Seq<usize>>,
}

impl<'a, P: LR1Table, T, E, F: Fn(&T) -> usize> Parse<'a, P, T, E, F> {
    /// The table that the parser runs on.
    pub closed spec fn table(&self) -> &'a P {
        self.table
    }

    /// The classifier of tokens.
    pub closed spec fn classifier(&self) -> F {
        self.f
    }

    /// The parser's state.
    pub closed spec fn view(&self) -> ParseState<T, E> {
        ParseState {
            stack: self.state_history@,
            word: self.next_word,
            class: self.next_class,
            action: self.next_action,
            steps: self.step as nat,
            pending: self.input@.reverse(),
            symbols: self.symbols@,
            shifted: self.shifted@,
            reduced: self.reduced@,
        }
    }

    /// The parser's invariant. The count of tokens shifted, the input held
    /// and the lookahead fit the machine. A parser that has not begun is
    /// in its initial state. In one that has begun, the states entered
    /// lead from the initial state, one to the next, on the symbols; the
    /// action that is due is what the table has for the state on top and
    /// the lookahead, unless none is; a shift is only due while there is a
    /// lookahead; a lookahead is missing only once the input is exhausted;
    /// and by the productions of the reductions reported, last first, the
    /// symbols derive the terminals shifted, always replacing the
    /// rightmost variable.
    pub open spec fn wf(&self) -> bool {
        let s = self.view();
        &&& self.table().wf()
        &&& accepts_all::<T, F>(self.classifier())
        &&& s.word is Some <==> s.class is Some
        &&& s.steps + s.pending.len() + (if s.word is Some {
            1int
        } else {
            0int
        }) <= usize::MAX
        &&& if s.stack.len() == 0 {
            s == initial(s.pending)
        } else {
            &&& on_path(self.table(), s.stack, s.symbols)
            &&& s.action != Action::Invalid ==> s.action == looked_up(
                self.table(),
                s.stack.last() as int,
                s.class,
            )
            &&& s.action is Shift ==> s.word is Some
            &&& s.word is None ==> s.pending.len() == 0
            &&& rm_derives(self.table(), s.symbols, reversed(s.reduced), terminals(s.shifted))
        }
    }

    /// Whether the parser may be handed `item` as what the input gives
    /// next. Where the parser is about to take an item (it has not begun,
    /// or a shift is due), the end of the input is only handed to it once
    /// its own input is exhausted, and a token or an error only while the
    /// count of tokens shifted has room for it. Where the parser is not
    /// about to take an item, it is handed none.
    pub open spec fn admits(&self, item: Option<Result<T, E>>) -> bool {
        let s = self.view();
        if s.stack.len() == 0 || s.action is Shift {
            match item {
                Some(_) => s.steps + s.pending.len() + (if s.word is Some {
                    1int
                } else {
                    0int
                }) + 1 <= usize::MAX,
                None => s.pending.len() == 0,
            }
        } else {
            item is None
        }
    }

    /// Once the input is accepted, it is exhausted, the one symbol left is
    /// the grammar's first variable, and by the productions of the
    /// reductions reported, last first, that variable derives the
    /// terminals shifted, always replacing the rightmost variable: the
    /// reductions are a rightmost derivation of the input in reverse.
    pub proof fn lemma_accepted(&self)
        requires
            self.wf(),
            self.view().action == Action::Accept,
            self.table().var_total() >= 1,
        ensures
            self.view().word is None,
            self.view().pending.len() == 0,
            self.view().symbols == seq![Symbol::Variable(0)],
            rm_derives(
                self.table(),
                seq![Symbol::Variable(0)],
                reversed(self.view().reduced),
                terminals(self.view().shifted),
            ),
    {
        let s = self.view();
        let table = self.table();
        let m = s.stack.len() - 1;
        let top = s.stack[m] as int;
        let col = column_of(s.class);
        let last = table.production_total() - 1;
        table.lemma_rooted(top, col, 0, 0, 0);
        lemma_descend(table, s.stack, s.symbols, m, last, 1, 1);
        table.lemma_rooted(s.stack[m - 1] as int, 0, 0, last, 0);
        if m - 1 >= 1 {
            lemma_left_start(table, s.stack, s.symbols, m - 1);
        }
        assert(s.symbols =~= seq![Symbol::Variable(0)]);
    }

    /// Takes `word` as lookahead, with its class and the action for it in
    /// `state`.
    fn look(&mut self, state: usize, word: Option<T>)
        requires
            old(self).table().wf(),
            state < old(self).table().state_total(),
            accepts_all::<T, F>(old(self).classifier()),
        ensures
            final(self).table() == old(self).table(),
            final(self).classifier() == old(self).classifier(),
            classified(old(self).classifier(), word, final(self).view().class),
            final(self).view() == (ParseState {
                word,
                class: final(self).view().class,
                action: looked_up(old(self).table(), state as int, final(self).view().class),
                ..old(self).view()
            }),
    {
        proof {
            self.table.lemma_shaped();
        }
        match word {
            Some(t) => {
                proof {
                    assert(accepts_all::<T, F>(self.f));
                    assert(self.f.requires((&t,)));
                }
                let class = (self.f)(&t);
                self.next_word = Some(t);
                self.next_class = Some(class);
                self.next_action = if class < self.table.word_count() {
                    self.table.action(state, Some(class))
                } else {
                    Action::Invalid
                };
            },
            None => {
                self.next_word = None;
                self.next_class = None;
                proof {
                    self.table.lemma_entries(state as int, 0, 0);
                }
                self.next_action = self.table.action(state, None);
            },
        }
    }

    /// Takes from the parser's own input what it hands out next.
    fn pull(&mut self) -> (item: Option<Result<T, E>>)
        ensures
            final(self).table() == old(self).table(),
            final(self).classifier() == old(self).classifier(),
            item == front(old(self).view().pending),
            final(self).view() == (ParseState {
                pending: behind(old(self).view().pending),
                ..old(self).view()
            }),
    {
        let ghost pending = self.input@.reverse();
        let item = self.input.pop();
        proof {
            let rest = self.input@.reverse();
            if pending.len() > 0 {
                assert(pending[0] == old(self).input@[old(self).input@.len() - 1]);
                assert(rest =~= pending.skip(1));
            } else {
                assert(rest =~= pending);
            }
        }
        item
    }

    /// A parser for `input` on `table`, where `f` gives the class of a
    /// token. Nothing is taken from the input, no token is classified and
    /// the table is not looked at: the parser has not begun.
    #[must_use]
    pub fn new(table: &'a P, input: Vec<Result<T, E>>, f: F) -> (parse: Self)
        ensures
            parse.table() == table,
            parse.classifier() == f,
            parse.view() == initial(input@),
            table.wf() && accepts_all::<T, F>(f) ==> parse.wf(),
    {
        let mut input = input;
        let ghost given = input@;
        let total: usize = input.len();
        let mut turned: Vec<Result<T, E>> = Vec::new();
        while input.len() > 0
            invariant
                input@.len() + turned@.len() == given.len(),
                given.len() == total,
                forall|i: int| 0 <= i < input@.len() ==> input@[i] == given[i],
                forall|i: int|
                    0 <= i < turned@.len() ==> turned@[i] == given[given.len() - 1 - i],
            decreases input@.len(),
        {
            let token = input.pop().unwrap();
            turned.push(token);
        }
        proof {
            assert(turned@.reverse() =~= given);
        }
        Self {
            table,
            input: turned,
            f,
            step: 0,
            next_word: None,
            next_class: None,
            next_action: Action::Shift(START_STATE),
            state_history: Vec::new(),
            symbols: Ghost(Seq::empty()),
            shifted: Ghost(Seq::empty()),
            reduced: Ghost(Seq::empty()),
        }
    }

    /// Whether the parser has begun.
    pub fn started(&self) -> (r: bool)
        ensures
            r == (self.view().stack.len() > 0),
    {
        self.state_history.len() > 0
    }

    /// Whether the parser is about to take an item of the input: it has
    /// not begun, or a shift is due.
    pub fn wants_token(&self) -> (r: bool)
        ensures
            r == (self.view().stack.len() == 0 || self.view().action is Shift),
    {
        self.state_history.len() == 0 || matches!(self.next_action, Action::Shift(_))
    }

    /// Number of tokens shifted.
    pub fn steps(&self) -> (r: usize)
        ensures
            r == self.view().steps,
    {
        self.step
    }

    /// Begins on `item`, which the input handed out first: `None` where
    /// the input is empty. An error of the input is handed back, and the
    /// parser has still not begun.
    pub fn enter(&mut self, item: Option<Result<T, E>>) -> (r: Result<(), E>)
        requires
            old(self).wf(),
            old(self).view().stack.len() == 0,
            old(self).admits(item),
        ensures
            final(self).wf(),
            final(self).table() == old(self).table(),
            final(self).classifier() == old(self).classifier(),
            begun(old(self).table(), old(self).classifier(), old(self).view(), item,
                final(self).view()),
            match item {
                Some(Err(e)) => r == Err::<(), E>(e),
                _ => r is Ok,
            },
    {
        let word = match item {
            Some(Err(e)) => {
                return Err(e);
            },
            Some(Ok(t)) => Some(t),
            None => None,
        };
        proof {
            self.table.lemma_start();
        }
        self.look(START_STATE, word);
        self.state_history.push(START_STATE);
        proof {
            self.table.lemma_entries(0, column_of(self.next_class), 0);
            assert(self.state_history@ =~= seq![START_STATE]);
            assert(terminals(self.shifted@) =~= self.symbols@);
            assert(reversed(self.reduced@) =~= Seq::<usize>::empty());
        }
        Ok(())
    }

    /// The next event of the parse, an error, or `None` once the input is
    /// accepted, where `item` is what the input hands out for it: `None`
    /// where the input is exhausted or the parser takes no item.
    pub fn advance(&mut self, item: Option<Result<T, E>>) -> (r: Option<
        Result<Event<T>, ParseError<E>>,
    >)
        requires
            old(self).wf(),
            old(self).view().stack.len() > 0,
            old(self).admits(item),
        ensures
            final(self).wf(),
            final(self).table() == old(self).table(),
            final(self).classifier() == old(self).classifier(),
            advanced(old(self).table(), old(self).classifier(), old(self).view(), item,
                final(self).view(), r),
            !(r matches Some(Err(ParseError::InvalidGoto { .. }))),
    {
        let n = self.state_history.len();
        proof {
            self.table.lemma_shaped();
        }
        match self.next_action {
            Action::Invalid => {
                Some(
                    Err(
                        ParseError::InvalidAction {
                            step: self.step,
                            state: self.state_history[n - 1],
                            word: self.next_class,
                        },
                    ),
                )
            },
            Action::Accept => { None },
            Action::Shift(state) => {
                let word = match item {
                    Some(Err(e)) => {
                        return Some(Err(ParseError::InputError(e)));
                    },
                    Some(Ok(t)) => Some(t),
                    None => None,
                };
                let mut curr_word: Option<T> = None;
                core::mem::swap(&mut self.next_word, &mut curr_word);
                let ghost top = self.state_history@[n - 1];
                let ghost class = old(self).next_class.unwrap();
                proof {
                    let col = column_of(old(self).next_class);
                    assert(self.table.action_at(top as int, col) == Action::Shift(state));
                    self.table.lemma_entries(top as int, col, 0);
                }
                self.look(state, word);
                self.state_history.push(state);
                self.step = self.step + 1;
                proof {
                    lemma_derives_push(
                        self.table,
                        self.symbols@,
                        reversed(self.reduced@),
                        terminals(self.shifted@),
                        class,
                    );
                    lemma_terminals_push(self.shifted@, class);
                }
                self.symbols = Ghost(self.symbols@.push(Symbol::Terminal(class)));
                self.shifted = Ghost(self.shifted@.push(class));
                proof {
                    self.table.lemma_entries(state as int, column_of(self.next_class), 0);
                    let stack = self.state_history@;
                    let before = old(self).state_history@;
                    let symbols = self.symbols@;
                    let symbols0 = old(self).symbols@;
                    assert(stack == before.push(state));
                    assert forall|i: int| 0 <= i < symbols.len() implies #[trigger] labelled(
                        self.table,
                        stack,
                        symbols,
                        i,
                    ) by {
                        if i < symbols0.len() {
                            assert(labelled(self.table, before, symbols0, i));
                        }
                    }
                }
                Some(Ok(Event::Shift(curr_word.unwrap())))
            },
            Action::Reduce(production) => {
                proof {
                    let top = self.state_history@[n - 1] as int;
                    let col = column_of(self.next_class);
                    assert(self.table.action_at(top, col) == Action::Reduce(production));
                    self.table.lemma_entries(top, col, 0);
                }
                // lookup which variable and how many frontier elements are consumed
                let reduction = self.table.reduction(production);
                proof {
                    let top = self.state_history@[n - 1] as int;
                    let col = column_of(self.next_class);
                    assert(self.table.action_at(top, col) == Action::Reduce(production));
                    self.table.lemma_grounded(top, col, 0, 0, 0);
                    lemma_descend(
                        self.table,
                        self.state_history@,
                        self.symbols@,
                        n - 1,
                        production as int,
                        reduction.count as int,
                        reduction.count as int,
                    );
                    self.table.lemma_entries(top, col, 0);
                    self.table.lemma_rooted(top, col, 0, production as int, reduction.count as int);
                    let under = self.state_history@[n - 1 - reduction.count] as int;
                    self.table.lemma_grounded(under, 0, 0, production as int, 0);
                }
                // consume part of frontier
                self.state_history.truncate(n - reduction.count);
                // state is rewinded to before words associated with reduction
                let old_state = self.state_history[n - reduction.count - 1];
                let ghost base = self.state_history@;
                let ghost symbols0 = self.symbols@;
                let ghost stem = symbols0.take(symbols0.len() - reduction.count);
                self.symbols = Ghost(stem);
                proof {
                    let before = old(self).state_history@;
                    assert(base == before.take(n - reduction.count));
                    assert(old_state == before[n - reduction.count - 1]);
                    self.table.lemma_entries(old_state as int, 0, reduction.var as int);
                    assert forall|i: int| 0 <= i < stem.len() implies #[trigger] labelled(
                        self.table,
                        base,
                        stem,
                        i,
                    ) by {
                        assert(labelled(self.table, before, symbols0, i));
                    }
                    assert(symbols0 =~= stem + self.table.rhs_of(production as int));
                }
                if let Some(state) = self.table.goto(old_state, reduction.var) {
                    self.next_action = match self.next_class {
                        Some(class) => {
                            if class < self.table.word_count() {
                                self.table.action(state, Some(class))
                            } else {
                                Action::Invalid
                            }
                        },
                        None => {
                            proof {
                                self.table.lemma_entries(state as int, 0, 0);
                            }
                            self.table.action(state, None)
                        },
                    };
                    self.state_history.push(state);
                    proof {
                        lemma_derives_reduce(
                            self.table,
                            stem,
                            production,
                            reversed(self.reduced@),
                            terminals(self.shifted@),
                        );
                        lemma_reversed_push(self.reduced@, production);
                    }
                    self.symbols = Ghost(stem.push(Symbol::Variable(reduction.var)));
                    self.reduced = Ghost(self.reduced@.push(production));
                    proof {
                        self.table.lemma_entries(state as int, column_of(self.next_class), 0);
                        let stack = self.state_history@;
                        let symbols = self.symbols@;
                        assert(stack == base.push(state));
                        assert forall|i: int| 0 <= i < symbols.len() implies #[trigger] labelled(
                            self.table,
                            stack,
                            symbols,
                            i,
                        ) by {
                            if i < stem.len() {
                                assert(labelled(self.table, base, stem, i));
                            }
                        }
                    }
                    Some(
                        Ok(
                            Event::Reduce {
                                var: reduction.var,
                                child_count: reduction.count,
                                production,
                            },
                        ),
                    )
                } else {
                    self.next_action = Action::Invalid;
                    Some(
                        Err(
                            ParseError::InvalidGoto {
                                step: self.step,
                                state: old_state,
                                var: reduction.var,
                            },
                        ),
                    )
                }
            },
        }
    }

    /// The next event of the parse on the parser's own input, an error,
    /// or `None` once the input is accepted.
    pub fn next(&mut self) -> (r: Option<Result<Event<T>, ParseError<E>>>)
        requires
            old(self).wf(),
        ensures
            final(self).wf(),
            final(self).table() == old(self).table(),
            final(self).classifier() == old(self).classifier(),
            stepped(old(self).table(), old(self).classifier(), old(self).view(), final(self).view(),
                r),
            !(r matches Some(Err(ParseError::InvalidGoto { .. }))),
    {
        if self.state_history.len() == 0 {
            let first = self.pull();
            match self.enter(first) {
                Err(e) => {
                    return Some(Err(ParseError::InputError(e)));
                },
                Ok(_) => {},
            }
        }
        let ghost mid = self.view();
        let item = match self.next_action {
            Action::Shift(_) => self.pull(),
            _ => None,
        };
        let r = self.advance(item);
        proof {
            assert(acted(self.table(), self.classifier(), mid, self.view(), r));
        }
        r
    }
}

} // verus!
