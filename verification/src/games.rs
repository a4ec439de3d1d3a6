//! Where games begin.
use crate::bytes::has_at;
use crate::grammar::{Event, Goal, State, bom};
use crate::progress::{Dealer, dealt, every_turn_gets_on, next_event, rank};
use crate::run::{Listener, Run, Told, next_through, read_through};
use crate::skipping::{after_blank, due, lemma_after_blank};
use crate::windows::{
    filled, is_window, lemma_has_at_take, lemma_pending_window, nothing_is_lost,
};
use vstd::prelude::*;

verus! {

/// What is left after a byte order mark.
pub open spec fn after_bom(s: Seq<u8>) -> Seq<u8> {
    if has_at(s, 0, bom()) {
        s.skip(3)
    } else {
        s
    }
}

/// What is left when a game begins, or nothing if there is none: the input
/// without a byte order mark, blanks, and lines from a percent sign on.
pub open spec fn next_game(s: Seq<u8>) -> Seq<u8> {
    after_blank(after_bom(s))
}

/// The start of a call.
pub open spec fn call(goal: Goal, input: Seq<u8>, told: Told) -> Run {
    Run { state: State::Bom(goal), pending: None, input, told }
}

/// What a call reports first, if there is a game or if there is none.
pub open spec fn first_event(goal: Goal, more: bool) -> Event<Seq<u8>> {
    match goal {
        Goal::HasMore => Event::HasMore(more),
        Goal::ReadGame => if more {
            Event::BeginGame
        } else {
            Event::NoGame
        },
    }
}

/// How far a call has come when it has reported its first event, if `rest` is
/// what is left when the next game begins.
pub open spec fn after_first_event(goal: Goal, rest: Seq<u8>, told: Told) -> Run {
    let more = rest.len() > 0;
    Run {
        state: if goal == Goal::ReadGame && more {
            State::BeginHeaders
        } else {
            State::Bom(Goal::ReadGame)
        },
        pending: None,
        input: rest,
        told: told.push(first_event(goal, more)),
    }
}

/// Whether a game is looked for.
spec fn is_looking(r: Run, goal: Goal) -> bool {
    r.state == State::Bom(goal) || r.state == State::Blank(goal) || r.state == State::Start(goal)
}

/// What will be left when the game begins that is looked for.
spec fn game_left(r: Run) -> Seq<u8> {
    match r.state {
        State::Bom(_) => next_game(due(r)),
        State::Blank(_) => after_blank(due(r)),
        _ => due(r),
    }
}

/// A turn in which a game is looked for.
proof fn lemma_look(r: Run, goal: Goal, window: int, listener: Listener)
    requires
        is_looking(r, goal),
        is_window(window, r),
    ensures
        ({
            let through = next_through(r, window, listener);
            if next_event(r, window) is Nothing {
                &&& is_looking(through, goal)
                &&& game_left(through) == game_left(r)
                &&& through.told == r.told
            } else {
                &&& next_event(r, window) == first_event(goal, game_left(r).len() > 0)
                &&& through == after_first_event(goal, game_left(r), r.told)
            }
        }),
{
    let s = r.input;
    let b = s.take(window);
    assert(s.skip(0) =~= s);
    if r.pending is Some {
        lemma_pending_window(r, window, listener);
    } else if r.state is Bom {
        if window < s.len() {
            lemma_has_at_take(s, 0, bom(), window);
        } else {
            assert(b =~= s);
        }
    } else if b.len() > 0 {
        assert(b[0] == s[0]);
    }
}

/// Turns in which a game is looked for.
proof fn lemma_looks(r: Run, goal: Goal, windows: Seq<int>, listener: Listener)
    requires
        is_looking(r, goal),
        filled(r, windows, listener),
        read_through(r, windows, listener).told == r.told,
    ensures
        is_looking(read_through(r, windows, listener), goal),
        game_left(read_through(r, windows, listener)) == game_left(r),
    decreases windows.len(),
{
    if windows.len() > 0 {
        let front = windows.drop_last();
        let now = read_through(r, front, listener);
        nothing_is_lost(r, front, listener);
        assert(now.told =~= r.told);
        lemma_looks(r, goal, front, listener);
        lemma_look(now, goal, windows.last(), listener);
    }
}

/// However the source deals out its bytes, the first event of a call tells whether
/// there is a game: there is one if and only if anything is left after a byte
/// order mark, blanks, and lines from a percent sign on. Exactly that is left then.
pub proof fn the_first_event_tells(
    goal: Goal,
    input: Seq<u8>,
    told: Told,
    windows: Seq<int>,
    window: int,
    listener: Listener,
)
    requires
        filled(call(goal, input, told), windows.push(window), listener),
        ({
            let now = read_through(call(goal, input, told), windows, listener);
            now.told == told && !(next_event(now, window) is Nothing)
        }),
    ensures
        ({
            let now = read_through(call(goal, input, told), windows, listener);
            let rest = next_game(input);
            &&& next_event(now, window) == first_event(goal, rest.len() > 0)
            &&& next_through(now, window, listener) == after_first_event(goal, rest, told)
        }),
{
    let start = call(goal, input, told);
    assert(windows.push(window).drop_last() =~= windows);
    lemma_looks(start, goal, windows, listener);
    lemma_look(read_through(start, windows, listener), goal, window, listener);
}

/// More turns, up to the first event.
proof fn lemma_first_event_comes(
    r: Run,
    goal: Goal,
    done: Seq<int>,
    dealer: Dealer,
    listener: Listener,
) -> (windows: Seq<int>)
    requires
        dealt(r, done, dealer, listener),
        forall|x: Run| is_window(#[trigger] dealer(x), x),
        is_looking(read_through(r, done, listener), goal),
        read_through(r, done, listener).told == r.told,
    ensures
        dealt(r, windows, dealer, listener),
        ({
            let now = read_through(r, windows, listener);
            now.told == r.told && !(next_event(now, dealer(now)) is Nothing)
        }),
    decreases
            read_through(r, done, listener).input.len(),
            rank(read_through(r, done, listener)),
{
    let now = read_through(r, done, listener);
    let window = dealer(now);
    if next_event(now, window) is Nothing {
        let more = done.push(window);
        assert(more.drop_last() =~= done);
        every_turn_gets_on(now, window, listener);
        lemma_look(now, goal, window, listener);
        lemma_first_event_comes(r, goal, more, dealer, listener)
    } else {
        done
    }
}

/// However the source deals out its bytes, the first event of a call comes.
pub proof fn the_first_event_comes(
    goal: Goal,
    input: Seq<u8>,
    told: Told,
    dealer: Dealer,
    listener: Listener,
) -> (windows: Seq<int>)
    requires
        forall|x: Run| is_window(#[trigger] dealer(x), x),
    ensures
        dealt(call(goal, input, told), windows, dealer, listener),
        ({
            let now = read_through(call(goal, input, told), windows, listener);
            now.told == told && !(next_event(now, dealer(now)) is Nothing)
        }),
{
    lemma_first_event_comes(call(goal, input, told), goal, Seq::empty(), dealer, listener)
}

/// Asking whether there is more foresees what reading does. However the source
/// deals out its bytes to the two calls, the answer is yes if and only if a game
/// begins, and both calls get to the same place.
pub proof fn has_more_foresees_read_game(
    input: Seq<u8>,
    told: Told,
    ask_windows: Seq<int>,
    ask_window: int,
    asking: Listener,
    read_windows: Seq<int>,
    read_window: int,
    reading: Listener,
)
    requires
        filled(call(Goal::HasMore, input, told), ask_windows.push(ask_window), asking),
        ({
            let now = read_through(call(Goal::HasMore, input, told), ask_windows, asking);
            now.told == told && !(next_event(now, ask_window) is Nothing)
        }),
        filled(call(Goal::ReadGame, input, told), read_windows.push(read_window), reading),
        ({
            let now = read_through(call(Goal::ReadGame, input, told), read_windows, reading);
            now.told == told && !(next_event(now, read_window) is Nothing)
        }),
    ensures
        ({
            let ask = read_through(call(Goal::HasMore, input, told), ask_windows, asking);
            let read = read_through(call(Goal::ReadGame, input, told), read_windows, reading);
            let answer = next_event(ask, ask_window);
            let event = next_event(read, read_window);
            &&& answer == Event::<Seq<u8>>::HasMore(true) && event is BeginGame || answer
                == Event::<Seq<u8>>::HasMore(false) && event is NoGame
            &&& next_through(ask, ask_window, asking).input == next_game(input)
            &&& next_through(read, read_window, reading).input == next_game(input)
        }),
{
    the_first_event_tells(Goal::HasMore, input, told, ask_windows, ask_window, asking);
    the_first_event_tells(Goal::ReadGame, input, told, read_windows, read_window, reading);
}

/// Asking whether there is more does not change where the next game begins,
/// unless there is a byte order mark.
pub proof fn has_more_keeps_the_game(input: Seq<u8>)
    requires
        !has_at(next_game(input), 0, bom()),
    ensures
        next_game(next_game(input)) == next_game(input),
{
    lemma_after_blank(after_bom(input));
}

} // verus!
