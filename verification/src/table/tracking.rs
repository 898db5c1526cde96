use vstd::prelude::*;
use super::machine::{
    ahead, due, lemma_trace_len, made, moved, moves, runs, trace, Config, Move,
};
use super::parse::{
    acted, advanced, begun, behind, front, labelled, lemma_descend, on_path, stepped, token_of,
    Event, ParseError, ParseState,
};
use super::table::{Action, LR1Table, START_STATE};
use crate::grammar::Symbol;
use crate::index_set::column_of;

verus! {

/// The tokens of `pending` are of the classes `classes`, one by one, and
/// none of its items is an error.
pub open spec fn classes_of<T, E, F: Fn(&T) -> usize>(
    f: F,
    pending: Seq<Result<T, E>>,
    classes: Seq<usize>,
) -> bool {
    &&& pending.len() == classes.len()
    &&& forall|i: int| 0 <= i < pending.len() ==> (#[trigger] pending[i]) is Ok
    &&& forall|i: int, c: usize|
        0 <= i < pending.len() && #[trigger] f.ensures((&pending[i]->Ok_0,), c) ==> c
            == classes[i]
}

/// The classes behind the lookahead.
pub open spec fn behind_classes(rest: Seq<usize>) -> Seq<usize> {
    if rest.len() > 0 {
        rest.skip(1)
    } else {
        rest
    }
}

/// The parser in state `s` stands where `c` says: it has entered the
/// states of `c`, its lookahead and the tokens it has not yet looked at
/// are of the classes of `c`, and the action due is the table's. A parser
/// that has not begun has all of its input before it, and `c` holds the
/// initial state.
pub open spec fn tracks<P: LR1Table, T, E, F: Fn(&T) -> usize>(
    table: &P,
    f: F,
    s: ParseState<T, E>,
    c: Config,
) -> bool {
    if s.stack.len() == 0 {
        &&& s.action == Action::Shift(START_STATE)
        &&& s.word is None
        &&& c.stack == seq![START_STATE]
        &&& classes_of(f, s.pending, c.rest)
    } else {
        &&& s.stack == c.stack
        &&& s.action == due(table, c)
        &&& s.class == ahead(c)
        &&& s.word is Some <==> c.rest.len() > 0
        &&& classes_of(f, s.pending, behind_classes(c.rest))
    }
}

/// The token that the parser shifts next: its lookahead, or the first
/// token of the input where the parser has not begun.
pub open spec fn lookahead_of<T, E>(s: ParseState<T, E>) -> Option<T> {
    if s.stack.len() == 0 {
        token_of(front(s.pending))
    } else {
        s.word
    }
}

/// `r` is the event of move `m`: the token shifted, or the reduction with
/// the variable and the length of its production.
pub open spec fn reported<P: LR1Table, T, E>(
    table: &P,
    m: Move,
    token: Option<T>,
    r: Option<Result<Event<T>, ParseError<E>>>,
) -> bool {
    match m {
        Move::Shift => token matches Some(w) && r == Some(
            Ok::<Event<T>, ParseError<E>>(Event::Shift(w)),
        ),
        Move::Reduce(p) => r == Some(
            Ok::<Event<T>, ParseError<E>>(
                Event::Reduce {
                    var: table.reduction_at(p as int).var,
                    child_count: table.reduction_at(p as int).count,
                    production: p,
                },
            ),
        ),
    }
}

/// Every run of the parser from state `s` reports the events of `moves`,
/// one at each step, and ends at the step after them.
pub open spec fn parses_as<P: LR1Table, T, E, F: Fn(&T) -> usize>(
    table: &P,
    f: F,
    s: ParseState<T, E>,
    moves: Seq<Move>,
) -> bool
    decreases moves.len(),
{
    forall|s1: ParseState<T, E>, r: Option<Result<Event<T>, ParseError<E>>>| #[trigger]
        stepped(table, f, s, s1, r) ==> if moves.len() == 0 {
            r is None
        } else {
            reported(table, moves[0], lookahead_of(s), r) && parses_as(
                table,
                f,
                s1,
                moves.drop_first(),
            )
        }
}

/// Some run of the parser from state `s` reports the events of `moves`,
/// one at each step, and ends at the step after them.
pub open spec fn parsed<P: LR1Table, T, E, F: Fn(&T) -> usize>(
    table: &P,
    f: F,
    s: ParseState<T, E>,
    moves: Seq<Move>,
) -> bool
    decreases moves.len(),
{
    exists|s1: ParseState<T, E>, r: Option<Result<Event<T>, ParseError<E>>>| #[trigger]
        stepped(table, f, s, s1, r) && if moves.len() == 0 {
            r is None
        } else {
            reported(table, moves[0], lookahead_of(s), r) && parsed(
                table,
                f,
                s1,
                moves.drop_first(),
            )
        }
}

/// A parser that has not begun, once it has taken the first item of its
/// input, stands where it stood.
proof fn lemma_tracked_start<P: LR1Table, T, E, F: Fn(&T) -> usize>(
    table: &P,
    f: F,
    s: ParseState<T, E>,
    c: Config,
    mid: ParseState<T, E>,
)
    requires
        s.stack.len() == 0,
        tracks(table, f, s, c),
        begun(
            table,
            f,
            ParseState { pending: behind(s.pending), ..s },
            front(s.pending),
            mid,
        ),
    ensures
        mid.stack.len() > 0,
        tracks(table, f, mid, c),
        mid.word == lookahead_of(s),
{
    if s.pending.len() > 0 {
        assert(s.pending[0] is Ok);
        let cl = mid.class->0;
        assert(f.ensures((&s.pending[0]->Ok_0,), cl));
        assert(cl == c.rest[0]);
    }
    assert(mid.stack =~= c.stack);
    assert forall|i: int| 0 <= i < mid.pending.len() implies (#[trigger] mid.pending[i])
        is Ok by {
        assert(mid.pending[i] == s.pending[i + 1]);
    }
    assert forall|i: int, cl: usize|
        0 <= i < mid.pending.len() && #[trigger] f.ensures(
            (&mid.pending[i]->Ok_0,),
            cl,
        ) implies cl == behind_classes(c.rest)[i] by {
        assert(mid.pending[i] == s.pending[i + 1]);
        assert(f.ensures((&s.pending[i + 1]->Ok_0,), cl));
    }
}

/// A step of a parser that has begun and stands where `c` says: where a
/// shift or a reduction can be done, the step reports its event and the
/// parser stands where that leads; where the input is to be accepted, the
/// step reports the end.
pub proof fn lemma_tracked_action<P: LR1Table, T, E, F: Fn(&T) -> usize>(
    table: &P,
    f: F,
    s: ParseState<T, E>,
    c: Config,
    s1: ParseState<T, E>,
    r: Option<Result<Event<T>, ParseError<E>>>,
)
    requires
        s.stack.len() > 0,
        tracks(table, f, s, c),
        acted(table, f, s, s1, r),
    ensures
        moves(table, c) ==> reported(table, made(table, c).unwrap(), s.word, r) && s1.stack.len()
            > 0 && tracks(table, f, s1, moved(table, c)),
        due(table, c) == Action::Accept ==> r is None,
{
    if moves(table, c) {
        match due(table, c) {
            Action::Shift(state) => {
                let taken = ParseState { pending: behind(s.pending), ..s };
                let item = front(s.pending);
                assert(advanced(table, f, taken, item, s1, r));
                let tail = behind_classes(c.rest);
                let d = moved(table, c);
                if s.pending.len() > 0 {
                    assert(s.pending[0] is Ok);
                    let t = s.pending[0]->Ok_0;
                    assert(token_of(item) == Some(t));
                    let cl = s1.class->0;
                    assert(f.ensures((&s.pending[0]->Ok_0,), cl));
                    assert(cl == tail[0]);
                }
                assert(s1.class == ahead(d));
                assert(d.stack.last() == state);
                assert forall|i: int| 0 <= i < s1.pending.len() implies (
                #[trigger] s1.pending[i]) is Ok by {
                    assert(s1.pending[i] == s.pending[i + 1]);
                }
                assert forall|i: int, cl: usize|
                    0 <= i < s1.pending.len() && #[trigger] f.ensures(
                        (&s1.pending[i]->Ok_0,),
                        cl,
                    ) implies cl == behind_classes(d.rest)[i] by {
                    assert(s1.pending[i] == s.pending[i + 1]);
                    assert(f.ensures((&s.pending[i + 1]->Ok_0,), cl));
                }
            },
            Action::Reduce(p) => {
                assert(advanced(table, f, s, None, s1, r));
                let red = table.reduction_at(p as int);
                let base = s.stack.take(s.stack.len() - red.count);
                assert(base.last() == c.stack[c.stack.len() - red.count - 1]);
            },
            _ => {},
        }
    }
}

/// A step of a parser that stands where `c` says, begun or not: where a
/// shift or a reduction can be done, the step reports its event and the
/// parser stands where that leads; where the input is to be accepted, the
/// step reports the end.
pub proof fn lemma_tracked_step<P: LR1Table, T, E, F: Fn(&T) -> usize>(
    table: &P,
    f: F,
    s: ParseState<T, E>,
    c: Config,
    s1: ParseState<T, E>,
    r: Option<Result<Event<T>, ParseError<E>>>,
)
    requires
        tracks(table, f, s, c),
        stepped(table, f, s, s1, r),
    ensures
        moves(table, c) ==> reported(table, made(table, c).unwrap(), lookahead_of(s), r)
            && s1.stack.len() > 0 && tracks(table, f, s1, moved(table, c)),
        due(table, c) == Action::Accept ==> r is None,
{
    if s.stack.len() == 0 {
        let taken = ParseState { pending: behind(s.pending), ..s };
        let item = front(s.pending);
        if s.pending.len() > 0 {
            assert(s.pending[0] is Ok);
        }
        let mid = choose|mid: ParseState<T, E>| #[trigger]
            begun(table, f, taken, item, mid) && acted(table, f, mid, s1, r);
        lemma_tracked_start(table, f, s, c, mid);
        lemma_tracked_action(table, f, mid, c, s1, r);
    } else {
        lemma_tracked_action(table, f, s, c, s1, r);
    }
}

/// A parser that stands where a run of shifts and reductions begins, at
/// whose end the input is to be accepted, reports the events of the run,
/// one at each step, and ends at the step after them.
pub proof fn lemma_tracked_run<P: LR1Table, T, E, F: Fn(&T) -> usize>(
    table: &P,
    f: F,
    s: ParseState<T, E>,
    c: Config,
    n: nat,
    d: Config,
)
    requires
        tracks(table, f, s, c),
        runs(table, c, n, d),
        due(table, d) == Action::Accept,
    ensures
        parses_as(table, f, s, trace(table, c, n)),
    decreases n,
{
    let moves = trace(table, c, n);
    lemma_trace_len(table, c, n, d);
    assert forall|s1: ParseState<T, E>, r: Option<Result<Event<T>, ParseError<E>>>| #[trigger]
        stepped(table, f, s, s1, r) implies if moves.len() == 0 {
        r is None
    } else {
        reported(table, moves[0], lookahead_of(s), r) && parses_as(
            table,
            f,
            s1,
            moves.drop_first(),
        )
    } by {
        lemma_tracked_step(table, f, s, c, s1, r);
        if n > 0 {
            lemma_tracked_run(table, f, s1, moved(table, c), (n - 1) as nat, d);
            assert(moves.drop_first() =~= trace(table, moved(table, c), (n - 1) as nat));
        }
    }
}

/// On a well-formed table, a shift with a token to shift, and a reduction
/// for which the table has a GOTO entry, can be done, and lead to states
/// entered from the initial state on symbols.
proof fn lemma_moved_path<P: LR1Table>(table: &P, c: Config, symbols: Seq<Symbol>) -> (next: Seq<
    Symbol,
>)
    requires
        table.wf(),
        on_path(table, c.stack, symbols),
        match due(table, c) {
            Action::Shift(_) => c.rest.len() > 0,
            Action::Reduce(p) => table.goto_at(
                c.stack.take(c.stack.len() - table.reduction_at(p as int).count).last() as int,
                table.reduction_at(p as int).var as int,
            ) is Some,
            _ => false,
        },
    ensures
        moves(table, c),
        on_path(table, moved(table, c).stack, next),
{
    let m = c.stack.len() - 1;
    let top = c.stack[m] as int;
    let col = column_of(ahead(c));
    let c1 = moved(table, c);
    table.lemma_entries(top, col, 0);
    match due(table, c) {
        Action::Shift(s) => {
            let next = symbols.push(Symbol::Terminal(c.rest[0]));
            assert forall|i: int| 0 <= i < next.len() implies #[trigger] labelled(
                table,
                c1.stack,
                next,
                i,
            ) by {
                if i < symbols.len() {
                    assert(labelled(table, c.stack, symbols, i));
                }
            }
            next
        },
        Action::Reduce(p) => {
            let red = table.reduction_at(p as int);
            let count = red.count as int;
            table.lemma_grounded(top, col, 0, 0, 0);
            table.lemma_rooted(top, col, 0, p as int, count);
            lemma_descend(table, c.stack, symbols, m, p as int, count, count);
            let base = c.stack.take(c.stack.len() - count);
            let under = base.last() as int;
            table.lemma_entries(under, 0, red.var as int);
            let stem = symbols.take(symbols.len() - count);
            let next = stem.push(Symbol::Variable(red.var));
            assert forall|i: int| 0 <= i < next.len() implies #[trigger] labelled(
                table,
                c1.stack,
                next,
                i,
            ) by {
                if i < stem.len() {
                    assert(labelled(table, c.stack, symbols, i));
                }
            }
            next
        },
        _ => symbols,
    }
}

/// A step of a parser that has begun and stands where `c` says, which
/// reports the end: the input is to be accepted.
proof fn lemma_parsed_end<P: LR1Table, T, E, F: Fn(&T) -> usize>(
    table: &P,
    f: F,
    s: ParseState<T, E>,
    c: Config,
    s1: ParseState<T, E>,
    r: Option<Result<Event<T>, ParseError<E>>>,
)
    requires
        s.stack.len() > 0,
        tracks(table, f, s, c),
        acted(table, f, s, s1, r),
        r is None,
    ensures
        due(table, c) == Action::Accept,
{
    if s.pending.len() > 0 {
        assert(s.pending[0] is Ok);
    }
}

/// A step of a parser that has begun and stands where `c` says, which
/// reports the event of a move: that move can be done, and is what the
/// table has; and the parser stands where it leads.
proof fn lemma_parsed_move<P: LR1Table, T, E, F: Fn(&T) -> usize>(
    table: &P,
    f: F,
    s: ParseState<T, E>,
    c: Config,
    symbols: Seq<Symbol>,
    s1: ParseState<T, E>,
    r: Option<Result<Event<T>, ParseError<E>>>,
    m: Move,
) -> (next: Seq<Symbol>)
    requires
        table.wf(),
        s.stack.len() > 0,
        tracks(table, f, s, c),
        on_path(table, c.stack, symbols),
        acted(table, f, s, s1, r),
        reported(table, m, s.word, r),
    ensures
        moves(table, c),
        made(table, c) == Some(m),
        s1.stack.len() > 0,
        tracks(table, f, s1, moved(table, c)),
        on_path(table, moved(table, c).stack, next),
{
    if s.pending.len() > 0 {
        assert(s.pending[0] is Ok);
    }
    let next = lemma_moved_path(table, c, symbols);
    lemma_tracked_action(table, f, s, c, s1, r);
    next
}

/// A run of the parser that reports the events of `moves` and then ends,
/// from where `c` says, is a run of as many shifts and reductions from
/// `c` to where the input is accepted, and `moves` is what is done in
/// it.
pub proof fn lemma_parsed_run<P: LR1Table, T, E, F: Fn(&T) -> usize>(
    table: &P,
    f: F,
    s: ParseState<T, E>,
    c: Config,
    symbols: Seq<Symbol>,
    moves: Seq<Move>,
) -> (d: Config)
    requires
        table.wf(),
        tracks(table, f, s, c),
        on_path(table, c.stack, symbols),
        parsed(table, f, s, moves),
    ensures
        runs(table, c, moves.len(), d),
        due(table, d) == Action::Accept,
        trace(table, c, moves.len()) == moves,
    decreases moves.len(),
{
    let (s1, r) = choose|s1: ParseState<T, E>, r: Option<Result<Event<T>, ParseError<E>>>|
        #[trigger] stepped(table, f, s, s1, r) && if moves.len() == 0 {
            r is None
        } else {
            reported(table, moves[0], lookahead_of(s), r) && parsed(
                table,
                f,
                s1,
                moves.drop_first(),
            )
        };
    let from = if s.stack.len() == 0 {
        if s.pending.len() > 0 {
            assert(s.pending[0] is Ok);
        }
        let mid = choose|mid: ParseState<T, E>| #[trigger]
            begun(
                table,
                f,
                ParseState { pending: behind(s.pending), ..s },
                front(s.pending),
                mid,
            ) && acted(table, f, mid, s1, r);
        lemma_tracked_start(table, f, s, c, mid);
        mid
    } else {
        s
    };
    if moves.len() == 0 {
        lemma_parsed_end(table, f, from, c, s1, r);
        assert(trace(table, c, 0) =~= moves);
        c
    } else {
        let next = lemma_parsed_move(table, f, from, c, symbols, s1, r, moves[0]);
        let d = lemma_parsed_run(table, f, s1, moved(table, c), next, moves.drop_first());
        assert(trace(table, c, moves.len()) =~= moves);
        d
    }
}

} // verus!
