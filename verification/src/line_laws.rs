//! What holds of lines that are carried out piece by piece.
use vstd::prelude::*;

#[allow(unused_imports)]
use crate::semantics::{overfills, perform, step, Effect, Outcome, Step, Surroundings, World};
#[allow(unused_imports)]
use crate::state::{body_end, code_between, item_at, run_line, Halt, Item, Place};
#[allow(unused_imports)]
use crate::types::{token_instr, Instr, Token, Value};

verus! {

/// The body of a definition that ends in the first of two pieces ends there in both together.
proof fn lemma_body_end_stays(a: Seq<Token>, b: Seq<Token>, p: int)
    requires
        0 <= p <= a.len(),
        body_end(a, p) < a.len(),
    ensures
        p <= body_end(a, p),
        body_end(a + b, p) == body_end(a, p),
    decreases a.len() - p,
{
    if p < a.len() {
        assert((a + b)[p] == a[p]);
        if !a[p].is_definition_syntax() {
            lemma_body_end_stays(a, b, p + 1);
        }
    }
}

/// The body of a definition in the second of two pieces ends where it ends in the piece.
proof fn lemma_body_end_moves(a: Seq<Token>, b: Seq<Token>, p: int)
    requires
        0 <= p,
    ensures
        body_end(a + b, a.len() + p) == a.len() + body_end(b, p),
        p <= body_end(b, p),
        p <= b.len() ==> body_end(b, p) <= b.len(),
    decreases b.len() - p,
{
    if p < b.len() {
        assert((a + b)[a.len() + p] == b[p]);
        if !b[p].is_definition_syntax() {
            lemma_body_end_moves(a, b, p + 1);
        }
    }
}

/// What is at a place in the first of two pieces is there in both together, unless it is no proper
/// definition.
proof fn lemma_item_stays(a: Seq<Token>, b: Seq<Token>, p: int)
    requires
        0 <= p < a.len(),
        !(item_at(a, p) is Bad),
    ensures
        item_at(a + b, p) == item_at(a, p),
        item_at(a, p) matches Item::Definition { next, .. } ==> p < next <= a.len(),
{
    let both = a + b;
    assert(both[p] == a[p]);
    if a[p] is Colon {
        assert(both[p + 1] == a[p + 1]);
        let q = body_end(a, p + 2);
        lemma_body_end_stays(a, b, p + 2);
        assert(both[q] == a[q]);
        assert(both.subrange(p + 2, q) =~= a.subrange(p + 2, q));
    }
}

/// What is found at a place further on.
spec fn item_moved(item: Item, by: int) -> Item {
    match item {
        Item::Definition { name, code, next } => Item::Definition { name, code, next: next + by },
        other => other,
    }
}

/// What is at a place in the second of two pieces is there in both together.
proof fn lemma_item_moves(a: Seq<Token>, b: Seq<Token>, p: int)
    requires
        0 <= p,
    ensures
        item_at(a + b, a.len() + p) == item_moved(item_at(b, p), a.len() as int),
        item_at(b, p) matches Item::Definition { next, .. } ==> p < next <= b.len(),
{
    let both = a + b;
    let k = a.len() as int;
    if p < b.len() {
        assert(both[k + p] == b[p]);
        if b[p] is Colon {
            if p + 1 < b.len() {
                assert(both[k + p + 1] == b[p + 1]);
                let q = body_end(b, p + 2);
                lemma_body_end_moves(a, b, p + 2);
                if q < b.len() {
                    assert(both[k + q] == b[q]);
                    assert(both.subrange(k + p + 2, k + q) =~= b.subrange(p + 2, q));
                }
            }
        }
    }
}

/// A place further on.
pub open spec fn further(c: Place, by: int) -> Place {
    Place { at: c.at + by, ..c }
}

/// The second of two pieces goes as it goes behind the first.
proof fn lemma_line_moves(
    a: Seq<Token>,
    b: Seq<Token>,
    defined: Set<Seq<char>>,
    room: nat,
    c: Place,
)
    requires
        0 <= c.at,
    ensures
        ({
            let (c2, halt) = run_line(b, defined, room, c);
            run_line(a + b, defined, room, further(c, a.len() as int)) == (
                further(c2, a.len() as int),
                halt,
            )
        }),
    decreases b.len() - c.at,
{
    let k = a.len() as int;
    let both = a + b;
    lemma_item_moves(a, b, c.at);
    match item_at(b, c.at) {
        Item::Definition { name, code, next } => {
            let c1 = Place { at: next, undefined: c.undefined.push((name, code)), stack: c.stack };
            lemma_line_moves(a, b, defined, room, c1);
        },
        Item::Token => {
            assert(both[k + c.at] == b[c.at]);
            if !(b[c.at] is Identifier && c.undefined.len() > 0) && !overfills(
                step(token_instr(b[c.at]), c.stack),
                room,
            ) {
                match step(token_instr(b[c.at]), c.stack) {
                    Step::Next(s) => {
                        lemma_line_moves(
                            a,
                            b,
                            defined,
                            room,
                            Place { at: c.at + 1, stack: s, ..c },
                        );
                    },
                    Step::Skip(s, n) => {
                        if c.at + 1 + n <= b.len() {
                            lemma_line_moves(
                                a,
                                b,
                                defined,
                                room,
                                Place { at: c.at + 1 + n, stack: s, ..c },
                            );
                        }
                    },
                    _ => {},
                }
            }
        },
        _ => {},
    }
}

/// Two pieces of a line, carried out one after the other, go as the whole line goes. As long as the
/// first piece is not done, and there is no error, the line stops where the piece stops, and for
/// the same reason. Once the piece is done, the line goes on as the second piece does.
pub proof fn law_line_goes_in_pieces(
    a: Seq<Token>,
    b: Seq<Token>,
    defined: Set<Seq<char>>,
    room: nat,
    c: Place,
)
    requires
        0 <= c.at <= a.len(),
    ensures
        ({
            let (c2, halt) = run_line(a, defined, room, c);
            let whole = run_line(a + b, defined, room, c);
            &&& c.at <= c2.at <= a.len()
            &&& match halt {
                Halt::Finished => {
                    let (c3, halt3) = run_line(b, defined, room, Place { at: 0, ..c2 });
                    c2.at == a.len() && whole == (further(c3, a.len() as int), halt3)
                },
                Halt::Error(_) => true,
                _ => whole == (c2, halt),
            }
            &&& halt is Perform || halt is Call ==> c.at < c2.at
            &&& halt is Recompile ==> c2.undefined.len() > 0 && (c.at < c2.at || c2.undefined
                == c.undefined)
        }),
    decreases a.len() - c.at,
{
    let both = a + b;
    if c.at == a.len() {
        lemma_line_moves(a, b, defined, room, Place { at: 0, ..c });
        assert(further(Place { at: 0, ..c }, a.len() as int) == c);
    } else if !(item_at(a, c.at) is Bad) {
        lemma_item_stays(a, b, c.at);
        match item_at(a, c.at) {
            Item::Definition { name, code, next } => {
                let c1 = Place {
                    at: next,
                    undefined: c.undefined.push((name, code)),
                    stack: c.stack,
                };
                law_line_goes_in_pieces(a, b, defined, room, c1);
            },
            _ => {
                assert(both[c.at] == a[c.at]);
                if !(a[c.at] is Identifier && c.undefined.len() > 0) && !overfills(
                    step(token_instr(a[c.at]), c.stack),
                    room,
                ) {
                    match step(token_instr(a[c.at]), c.stack) {
                        Step::Next(s) => {
                            law_line_goes_in_pieces(
                                a,
                                b,
                                defined,
                                room,
                                Place { at: c.at + 1, stack: s, ..c },
                            );
                        },
                        Step::Skip(s, n) => {
                            if c.at + 1 + n <= a.len() {
                                law_line_goes_in_pieces(
                                    a,
                                    b,
                                    defined,
                                    room,
                                    Place { at: c.at + 1 + n, stack: s, ..c },
                                );
                            }
                        },
                        _ => {},
                    }
                }
            },
        }
    }
}

/// A line on its way: where it has got to, what effects there have been, which functions can be
/// called, and what it meets.
pub struct Course {
    pub place: Place,
    pub log: Seq<Effect>,
    pub defined: Set<Seq<char>>,
    pub env: Surroundings,
}

/// Definitions that have not been compiled.
pub type Definitions = Seq<(Seq<char>, Seq<Instr>)>;

/// Where a line gets to, and why it stops there, if effects are performed, functions are carried
/// out, and definitions are compiled, on the way. `recompile` says which functions can be called
/// then, and what the line meets.
pub open spec fn play(
    line: Seq<Token>,
    room: nat,
    course: Course,
    recompile: spec_fn(Set<Seq<char>>, Surroundings, Definitions) -> (Set<Seq<char>>, Surroundings),
) -> (Course, Halt)
    decreases line.len() - course.place.at, course.place.undefined.len(),
{
    let c = course.place;
    let (c2, halt) = run_line(line, course.defined, room, c);
    let stopped = Course { place: c2, ..course };
    match halt {
        Halt::Perform(effect) => {
            let w = perform(c2.stack, course.log, effect, course.env);
            if c.at < c2.at <= line.len() {
                play(
                    line,
                    room,
                    Course { place: Place { stack: w.stack, ..c2 }, log: w.log, ..course },
                    recompile,
                )
            } else {
                (stopped, halt)
            }
        },
        Halt::Call(name) => match (course.env.call)(
            name,
            World { stack: c2.stack, log: course.log },
        ) {
            Outcome::Done(w) => if c.at < c2.at <= line.len() {
                play(
                    line,
                    room,
                    Course { place: Place { stack: w.stack, ..c2 }, log: w.log, ..course },
                    recompile,
                )
            } else {
                (stopped, halt)
            },
            _ => (stopped, halt),
        },
        Halt::Recompile => {
            let (defined, env) = recompile(course.defined, course.env, c2.undefined);
            if c.at <= c2.at <= line.len() && c2.undefined.len() > 0 && (c.at < c2.at
                || c2.undefined == c.undefined) {
                play(
                    line,
                    room,
                    Course {
                        place: Place { undefined: Seq::empty(), ..c2 },
                        log: course.log,
                        defined,
                        env,
                    },
                    recompile,
                )
            } else {
                (stopped, halt)
            }
        },
        _ => (stopped, halt),
    }
}

/// A line on its way, further on.
pub open spec fn further_on(course: Course, by: int) -> Course {
    Course { place: further(course.place, by), ..course }
}

/// The second of two pieces is carried out as it is behind the first.
proof fn lemma_play_moves(
    a: Seq<Token>,
    b: Seq<Token>,
    room: nat,
    course: Course,
    recompile: spec_fn(Set<Seq<char>>, Surroundings, Definitions) -> (Set<Seq<char>>, Surroundings),
)
    requires
        0 <= course.place.at <= b.len(),
    ensures
        ({
            let (last, halt) = play(b, room, course, recompile);
            play(a + b, room, further_on(course, a.len() as int), recompile) == (
                further_on(last, a.len() as int),
                halt,
            )
        }),
    decreases b.len() - course.place.at, course.place.undefined.len(), 1int,
{
    lemma_line_moves(a, b, course.defined, room, course.place);
    lemma_play_from(
        a,
        b,
        room,
        further_on(course, a.len() as int),
        course,
        recompile,
    );
}

/// A line that goes, from where it is, as the second of two pieces does, is carried out as that is.
proof fn lemma_play_from(
    a: Seq<Token>,
    b: Seq<Token>,
    room: nat,
    course: Course,
    piece: Course,
    recompile: spec_fn(Set<Seq<char>>, Surroundings, Definitions) -> (Set<Seq<char>>, Surroundings),
)
    requires
        0 <= piece.place.at <= b.len(),
        course.place.at <= a.len() + piece.place.at,
        course.place.at < a.len() + piece.place.at || course.place.undefined
            == piece.place.undefined,
        course.log == piece.log,
        course.defined == piece.defined,
        course.env == piece.env,
        ({
            let (c, halt) = run_line(b, piece.defined, room, piece.place);
            run_line(a + b, course.defined, room, course.place) == (
                further(c, a.len() as int),
                halt,
            )
        }),
    ensures
        ({
            let (last, halt) = play(b, room, piece, recompile);
            play(a + b, room, course, recompile) == (further_on(last, a.len() as int), halt)
        }),
    decreases b.len() - piece.place.at, piece.place.undefined.len(), 0int,
{
    let k = a.len() as int;
    law_line_goes_in_pieces(b, Seq::empty(), piece.defined, room, piece.place);
    let (c, halt) = run_line(b, piece.defined, room, piece.place);
    match halt {
        Halt::Perform(effect) => {
            let w = perform(c.stack, piece.log, effect, piece.env);
            let next = Course { place: Place { stack: w.stack, ..c }, log: w.log, ..piece };
            lemma_play_moves(a, b, room, next, recompile);
        },
        Halt::Call(name) => {
            if let Outcome::Done(w) = (piece.env.call)(
                name,
                World { stack: c.stack, log: piece.log },
            ) {
                let next = Course { place: Place { stack: w.stack, ..c }, log: w.log, ..piece };
                lemma_play_moves(a, b, room, next, recompile);
            }
        },
        Halt::Recompile => {
            let (defined, env) = recompile(piece.defined, piece.env, c.undefined);
            let next = Course {
                place: Place { undefined: Seq::empty(), ..c },
                log: piece.log,
                defined,
                env,
            };
            lemma_play_moves(a, b, room, next, recompile);
        },
        _ => {},
    }
}

/// To carry out a line in two pieces, the first of which comes to its end, is to carry it out as a
/// whole: it stops for the same reason, and leaves the same stack, the same definitions and the
/// same effects.
pub proof fn law_pieces_play_like_whole(
    a: Seq<Token>,
    b: Seq<Token>,
    room: nat,
    course: Course,
    recompile: spec_fn(Set<Seq<char>>, Surroundings, Definitions) -> (Set<Seq<char>>, Surroundings),
)
    requires
        0 <= course.place.at <= a.len(),
        play(a, room, course, recompile).1 is Finished,
    ensures
        ({
            let first = play(a, room, course, recompile).0;
            let (last, halt) = play(
                b,
                room,
                Course { place: Place { at: 0, ..first.place }, ..first },
                recompile,
            );
            play(a + b, room, course, recompile) == (
                Course { place: further(last.place, a.len() as int), ..last },
                halt,
            )
        }),
    decreases a.len() - course.place.at, course.place.undefined.len(),
{
    let c = course.place;
    law_line_goes_in_pieces(a, b, course.defined, room, c);
    let (c2, halt) = run_line(a, course.defined, room, c);
    match halt {
        Halt::Finished => {
            let piece = Course { place: Place { at: 0, ..c2 }, ..course };
            lemma_play_from(a, b, room, course, piece, recompile);
        },
        Halt::Perform(effect) => {
            let w = perform(c2.stack, course.log, effect, course.env);
            law_pieces_play_like_whole(
                a,
                b,
                room,
                Course { place: Place { stack: w.stack, ..c2 }, log: w.log, ..course },
                recompile,
            );
        },
        Halt::Call(name) => {
            if let Outcome::Done(w) = (course.env.call)(
                name,
                World { stack: c2.stack, log: course.log },
            ) {
                law_pieces_play_like_whole(
                    a,
                    b,
                    room,
                    Course { place: Place { stack: w.stack, ..c2 }, log: w.log, ..course },
                    recompile,
                );
            }
        },
        Halt::Recompile => {
            let (defined, env) = recompile(course.defined, course.env, c2.undefined);
            law_pieces_play_like_whole(
                a,
                b,
                room,
                Course {
                    place: Place { undefined: Seq::empty(), ..c2 },
                    log: course.log,
                    defined,
                    env,
                },
                recompile,
            );
        },
        _ => {},
    }
}

} // verus!
