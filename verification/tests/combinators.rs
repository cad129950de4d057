use parsell::choice::OrElse;
use parsell::contract::{Committed, ParseResult, PeekableIterator, Stateful, Uncommitted};
use parsell::leaf::{Character, CharacterState, Emit};
use parsell::repeat::{Plus, Star};
use parsell::sequence::{begin_rhs, AndThen, AndThenState};
use parsell::stream::Stream;
use parsell::transform::{Discard, Mapped, Opt, VariantMap};
use parsell::adapt::{First, TryOpt};

fn chars(text: &str) -> Vec<char> {
    text.chars().collect()
}

fn finish<'a, S, O>(state: S) -> O
where
    S: Stateful<Stream<'a, char>, O>,
{
    state.done()
}

fn is_digit(ch: char) -> bool {
    ch.is_ascii_digit()
}

fn is_alpha(ch: char) -> bool {
    ch.is_ascii_alphabetic()
}

fn is_a(ch: char) -> bool {
    ch == 'a'
}

fn is_b(ch: char) -> bool {
    ch == 'b'
}

fn bang() -> char {
    '!'
}

fn to_digit(ch: char) -> u32 {
    ch.to_digit(10).unwrap_or(0)
}

#[test]
fn star_collects_digits_across_fragments() {
    let parser = Star::new(Character::new(is_digit), Vec::<char>::new);
    let first = chars("12");
    let mut stream = Stream::new(&first);
    let state = match parser.init(&mut stream) {
        Some(ParseResult::Continue(state)) => state,
        _ => panic!("expected to suspend"),
    };
    assert!(stream.is_empty());
    let second = chars("3");
    let mut stream = Stream::new(&second);
    let state = match state.more(&mut stream) {
        ParseResult::Continue(state) => state,
        ParseResult::Done(_) => panic!("expected to suspend"),
    };
    let last = chars("");
    let mut stream = Stream::new(&last);
    let state = match state.more(&mut stream) {
        ParseResult::Continue(state) => state,
        ParseResult::Done(_) => panic!("expected to suspend"),
    };
    assert_eq!(finish(state), vec!['1', '2', '3']);
}

#[test]
fn star_is_done_at_the_first_token_that_does_not_match() {
    let parser = Star::new(Character::new(is_digit), Vec::<char>::new);
    let input = chars("12x3");
    let mut stream = Stream::new(&input);
    match parser.init(&mut stream) {
        Some(ParseResult::Done(out)) => assert_eq!(out, vec!['1', '2']),
        _ => panic!("expected to be done"),
    }
    assert_eq!(stream.rest, &['x', '3'][..]);
}

#[test]
fn star_of_nothing_is_the_empty_accumulator() {
    let parser = Star::new(Character::new(is_digit), Vec::<char>::new);
    let input = chars("x");
    let mut stream = Stream::new(&input);
    match parser.init(&mut stream) {
        Some(ParseResult::Done(out)) => assert_eq!(out, Vec::<char>::new()),
        _ => panic!("expected to be done"),
    }
    assert_eq!(stream.rest, &['x'][..]);
}

#[test]
fn star_on_empty_input_defers_and_answers_with_the_empty_accumulator() {
    let parser = Star::new(Character::new(is_digit), Vec::<char>::new);
    let input = chars("");
    let mut stream = Stream::new(&input);
    assert!(parser.init(&mut stream).is_none());
    let out: Vec<char> = Committed::<Stream<char>, Vec<char>>::empty(&parser);
    assert_eq!(out, Vec::<char>::new());
}

#[test]
fn star_is_done_in_a_later_fragment() {
    let parser = Star::new(Character::new(is_digit), Vec::<char>::new);
    let first = chars("1");
    let mut stream = Stream::new(&first);
    let state = match parser.init(&mut stream) {
        Some(ParseResult::Continue(state)) => state,
        _ => panic!("expected to suspend"),
    };
    let second = chars("2x");
    let mut stream = Stream::new(&second);
    match state.more(&mut stream) {
        ParseResult::Done(out) => assert_eq!(out, vec!['1', '2']),
        ParseResult::Continue(_) => panic!("expected to be done"),
    }
    assert_eq!(stream.rest, &['x'][..]);
}

#[test]
fn plus_declines_where_nothing_matches() {
    let parser = Plus::new(Character::new(is_digit), Vec::<char>::new);
    let input = chars("abc");
    let mut stream = Stream::new(&input);
    assert!(parser.init(&mut stream).is_none());
    assert_eq!(stream.rest.len(), 3);
}

#[test]
fn plus_collects_one_or_more() {
    let parser = Plus::new(Character::new(is_digit), Vec::<char>::new);
    let input = chars("7a");
    let mut stream = Stream::new(&input);
    match parser.init(&mut stream) {
        Some(ParseResult::Done(out)) => assert_eq!(out, vec!['7']),
        _ => panic!("expected to be done"),
    }
    let input = chars("78");
    let mut stream = Stream::new(&input);
    match parser.init(&mut stream) {
        Some(ParseResult::Continue(state)) => assert_eq!(finish(state), vec!['7', '8']),
        _ => panic!("expected to suspend"),
    }
}

#[test]
fn and_then_pairs_across_two_fragments() {
    let parser = AndThen::new(
        Character::new(is_a),
        OrElse::new(Character::new(is_b), Emit::new(bang)),
    );
    let first = chars("a");
    let mut stream = Stream::new(&first);
    let state = match parser.init(&mut stream) {
        Some(ParseResult::Continue(state)) => state,
        _ => panic!("expected to suspend"),
    };
    let second = chars("b");
    let mut stream = Stream::new(&second);
    match state.more(&mut stream) {
        ParseResult::Done(out) => assert_eq!(out, ('a', 'b')),
        ParseResult::Continue(_) => panic!("expected to be done"),
    }
    assert!(stream.is_empty());
}

#[test]
fn and_then_pairs_within_one_fragment() {
    let parser = AndThen::new(
        Character::new(is_a),
        OrElse::new(Character::new(is_b), Emit::new(bang)),
    );
    let input = chars("ab");
    let mut stream = Stream::new(&input);
    match parser.init(&mut stream) {
        Some(ParseResult::Done(out)) => assert_eq!(out, ('a', 'b')),
        _ => panic!("expected to be done"),
    }
    assert!(stream.is_empty());
}

#[test]
fn and_then_declines_with_its_left_side() {
    let parser = AndThen::new(
        Character::new(is_a),
        OrElse::new(Character::new(is_b), Emit::new(bang)),
    );
    let input = chars("ba");
    let mut stream = Stream::new(&input);
    assert!(parser.init(&mut stream).is_none());
    assert_eq!(stream.rest.len(), 2);
}

#[test]
fn and_then_between_its_sides_finishes_with_the_right_sides_answer() {
    let parser = AndThen::new(
        Character::new(is_a),
        OrElse::new(Character::new(is_b), Emit::new(bang)),
    );
    let input = chars("a");
    let mut stream = Stream::new(&input);
    match parser.init(&mut stream) {
        Some(ParseResult::Continue(state)) => assert_eq!(finish(state), ('a', '!')),
        _ => panic!("expected to suspend"),
    }
}

#[test]
fn and_then_suspended_on_either_side() {
    let digits = Star::new(Character::new(is_digit), Vec::<char>::new);
    let letters = Star::new(Character::new(is_alpha), Vec::<char>::new);
    let parser = AndThen::new(digits, letters);
    let first = chars("12");
    let mut stream = Stream::new(&first);
    let state = match parser.init(&mut stream) {
        Some(ParseResult::Continue(state)) => state,
        _ => panic!("expected to suspend"),
    };
    let second = chars("3ab");
    let mut stream = Stream::new(&second);
    let state = match state.more(&mut stream) {
        ParseResult::Continue(state) => state,
        ParseResult::Done(_) => panic!("expected to suspend"),
    };
    let third = chars("c!");
    let mut stream = Stream::new(&third);
    match state.more(&mut stream) {
        ParseResult::Done(out) => assert_eq!(out, (vec!['1', '2', '3'], vec!['a', 'b', 'c'])),
        ParseResult::Continue(_) => panic!("expected to be done"),
    }
    assert_eq!(stream.rest, &['!'][..]);
}

#[test]
fn and_then_finishes_from_each_phase() {
    let digits = Star::new(Character::new(is_digit), Vec::<char>::new);
    let letters = Star::new(Character::new(is_alpha), Vec::<char>::new);
    let parser = AndThen::new(digits, letters);
    let first = chars("12");
    let mut stream = Stream::new(&first);
    match parser.init(&mut stream) {
        Some(ParseResult::Continue(state)) => assert_eq!(finish(state), (vec!['1', '2'], vec![])),
        _ => panic!("expected to suspend"),
    }
    let whole = chars("12ab");
    let mut stream = Stream::new(&whole);
    match parser.init(&mut stream) {
        Some(ParseResult::Continue(state)) => {
            assert_eq!(finish(state), (vec!['1', '2'], vec!['a', 'b']))
        },
        _ => panic!("expected to suspend"),
    }
    let at_end: (Vec<char>, Vec<char>) =
        Committed::<Stream<char>, (Vec<char>, Vec<char>)>::empty(&parser);
    assert_eq!(at_end, (vec![], vec![]));
}

#[test]
fn opt_is_absent_where_the_parser_declines() {
    let parser = Opt::new(Character::new(is_digit));
    let input = chars("x");
    let mut stream = Stream::new(&input);
    match parser.init(&mut stream) {
        Some(ParseResult::Done(out)) => assert_eq!(out, None),
        _ => panic!("expected to be done"),
    }
    assert_eq!(stream.rest, &['x'][..]);
}

#[test]
fn opt_is_present_where_the_parser_matches() {
    let parser = Opt::new(Character::new(is_digit));
    let input = chars("5");
    let mut stream = Stream::new(&input);
    match parser.init(&mut stream) {
        Some(ParseResult::Done(out)) => assert_eq!(out, Some('5')),
        _ => panic!("expected to be done"),
    }
    assert!(stream.is_empty());
}

#[test]
fn opt_defers_on_an_empty_fragment() {
    let parser = Opt::new(Character::new(is_digit));
    let input = chars("");
    let mut stream = Stream::new(&input);
    assert!(parser.init(&mut stream).is_none());
    let at_end: Option<char> = Committed::<Stream<char>, Option<char>>::empty(&parser);
    assert_eq!(at_end, None);
}

#[test]
fn opt_wraps_a_suspended_parse() {
    let parser = Opt::new(Plus::new(Character::new(is_digit), Vec::<char>::new));
    let first = chars("1");
    let mut stream = Stream::new(&first);
    let state = match parser.init(&mut stream) {
        Some(ParseResult::Continue(state)) => state,
        _ => panic!("expected to suspend"),
    };
    let second = chars("2.");
    let mut stream = Stream::new(&second);
    match state.more(&mut stream) {
        ParseResult::Done(out) => assert_eq!(out, Some(vec!['1', '2'])),
        ParseResult::Continue(_) => panic!("expected to be done"),
    }
    let mut stream = Stream::new(&first);
    match parser.init(&mut stream) {
        Some(ParseResult::Continue(state)) => assert_eq!(finish(state), Some(vec!['1'])),
        _ => panic!("expected to suspend"),
    }
}

#[test]
fn or_else_takes_the_first_side_that_matches() {
    let parser = OrElse::new(Character::new(is_digit), Character::new(is_alpha));
    let input = chars("1a!");
    let mut stream = Stream::new(&input);
    match parser.init(&mut stream) {
        Some(ParseResult::Done(out)) => assert_eq!(out, '1'),
        _ => panic!("expected a digit"),
    }
    match parser.init(&mut stream) {
        Some(ParseResult::Done(out)) => assert_eq!(out, 'a'),
        _ => panic!("expected a letter"),
    }
    assert!(parser.init(&mut stream).is_none());
    assert_eq!(stream.rest, &['!'][..]);
}

#[test]
fn or_else_stays_with_the_side_that_suspended() {
    let digits = Plus::new(Character::new(is_digit), Vec::<char>::new);
    let letters = Plus::new(Character::new(is_alpha), Vec::<char>::new);
    let parser = OrElse::new(digits, letters);
    let first = chars("ab");
    let mut stream = Stream::new(&first);
    let state = match parser.init(&mut stream) {
        Some(ParseResult::Continue(state)) => state,
        _ => panic!("expected to suspend"),
    };
    let second = chars("c1");
    let mut stream = Stream::new(&second);
    match state.more(&mut stream) {
        ParseResult::Done(out) => assert_eq!(out, vec!['a', 'b', 'c']),
        ParseResult::Continue(_) => panic!("expected to be done"),
    }
    assert_eq!(stream.rest, &['1'][..]);
    let first = chars("12");
    let mut stream = Stream::new(&first);
    match parser.init(&mut stream) {
        Some(ParseResult::Continue(state)) => assert_eq!(finish(state), vec!['1', '2']),
        _ => panic!("expected to suspend"),
    }
}

#[test]
fn or_else_answers_at_the_end_with_its_second_side() {
    let parser = OrElse::new(Character::new(is_b), Emit::new(bang));
    let out: char = Committed::<Stream<char>, char>::empty(&parser);
    assert_eq!(out, '!');
}

#[test]
fn mapped_applies_the_function_at_every_exit() {
    let parser = Mapped::new(Character::new(is_digit), to_digit);
    let input = chars("9x");
    let mut stream = Stream::new(&input);
    match parser.init(&mut stream) {
        Some(ParseResult::Done(out)) => assert_eq!(out, 9),
        _ => panic!("expected to be done"),
    }
    assert!(parser.init(&mut stream).is_none());

    let counted = Mapped::new(
        Star::new(Character::new(is_digit), Vec::<char>::new),
        |digits: Vec<char>| digits.len(),
    );
    let first = chars("12");
    let mut stream = Stream::new(&first);
    let state = match counted.init(&mut stream) {
        Some(ParseResult::Continue(state)) => state,
        _ => panic!("expected to suspend"),
    };
    let second = chars("3.");
    let mut stream = Stream::new(&second);
    match state.more(&mut stream) {
        ParseResult::Done(out) => assert_eq!(out, 3),
        ParseResult::Continue(_) => panic!("expected to be done"),
    }
    let mut stream = Stream::new(&first);
    match counted.init(&mut stream) {
        Some(ParseResult::Continue(state)) => assert_eq!(finish(state), 2),
        _ => panic!("expected to suspend"),
    }
    let at_end: usize = Committed::<Stream<char>, usize>::empty(&counted);
    assert_eq!(at_end, 0);
}

#[test]
fn variant_map_applies_a_function_picked_by_its_result() {
    let parser = VariantMap::new(
        AndThen::new(Character::new(is_digit), Discard::new(Star::new(Character::new(is_alpha), Vec::<char>::new))),
        First,
    );
    let input = chars("1ab.");
    let mut stream = Stream::new(&input);
    let out: Option<ParseResult<_, char>> = parser.init(&mut stream);
    match out {
        Some(ParseResult::Done(out)) => assert_eq!(out, '1'),
        _ => panic!("expected to be done"),
    }
    assert_eq!(stream.rest, &['.'][..]);

    let first = chars("1a");
    let mut stream = Stream::new(&first);
    let suspended: Option<ParseResult<_, char>> = parser.init(&mut stream);
    match suspended {
        Some(ParseResult::Continue(state)) => assert_eq!(finish(state), '1'),
        _ => panic!("expected to suspend"),
    }
}

#[test]
fn variant_map_turns_an_option_of_results_inside_out() {
    let parser = VariantMap::new(
        Opt::new(Mapped::new(Character::new(is_digit), |ch: char| {
            if ch == '0' { Err("zero") } else { Ok(ch) }
        })),
        TryOpt,
    );
    let input = chars("10x");
    let mut stream = Stream::new(&input);
    let out: Option<ParseResult<_, Result<Option<char>, &str>>> = parser.init(&mut stream);
    match out {
        Some(ParseResult::Done(out)) => assert_eq!(out, Ok(Some('1'))),
        _ => panic!("expected to be done"),
    }
    let out: Option<ParseResult<_, Result<Option<char>, &str>>> = parser.init(&mut stream);
    match out {
        Some(ParseResult::Done(out)) => assert_eq!(out, Err("zero")),
        _ => panic!("expected to be done"),
    }
    let out: Option<ParseResult<_, Result<Option<char>, &str>>> = parser.init(&mut stream);
    match out {
        Some(ParseResult::Done(out)) => assert_eq!(out, Ok(None)),
        _ => panic!("expected to be done"),
    }
    assert_eq!(stream.rest, &['x'][..]);
}

#[test]
fn discard_keeps_the_control_flow_and_drops_the_output() {
    let parser = Discard::new(Plus::new(Character::new(is_digit), Vec::<char>::new));
    let input = chars("12a");
    let mut stream = Stream::new(&input);
    match parser.init(&mut stream) {
        Some(ParseResult::Done(out)) => assert_eq!(out, ()),
        _ => panic!("expected to be done"),
    }
    assert_eq!(stream.rest, &['a'][..]);
    assert!(parser.init(&mut stream).is_none());

    let first = chars("1");
    let mut stream = Stream::new(&first);
    let state = match parser.init(&mut stream) {
        Some(ParseResult::Continue(state)) => state,
        _ => panic!("expected to suspend"),
    };
    let second = chars("2.");
    let mut stream = Stream::new(&second);
    match state.more(&mut stream) {
        ParseResult::Done(out) => assert_eq!(out, ()),
        ParseResult::Continue(_) => panic!("expected to be done"),
    }
    assert_eq!(stream.rest, &['.'][..]);
}

#[test]
fn star_run_folds_until_the_parser_declines() {
    let input = chars("12a");
    let mut stream = Stream::new(&input);
    let digit = Character::new(is_digit as fn(char) -> bool);
    match parsell::repeat::star_run::<Stream<char>, _, char, Vec<char>>(digit, vec!['0'], &mut stream) {
        ParseResult::Done(out) => assert_eq!(out, vec!['0', '1', '2']),
        ParseResult::Continue(_) => panic!("expected to be done"),
    }
    assert_eq!(stream.rest, &['a'][..]);
    let input = chars("12");
    let mut stream = Stream::new(&input);
    match parsell::repeat::star_run::<Stream<char>, _, char, Vec<char>>(digit, vec![], &mut stream) {
        ParseResult::Continue(state) => {
            assert!(state.1.is_none());
            assert_eq!(state.2, vec!['1', '2']);
        },
        ParseResult::Done(_) => panic!("expected to suspend"),
    }
}

#[test]
fn begin_rhs_pairs_the_left_output_with_what_the_right_parser_gives() {
    let letters = Star::new(Character::new(is_alpha as fn(char) -> bool), Vec::<char>::new as fn() -> Vec<char>);
    let input = chars("ab1");
    let mut stream = Stream::new(&input);
    match begin_rhs::<Stream<char>, CharacterState, _, u32, Vec<char>>(letters, 7, &mut stream) {
        ParseResult::Done(out) => assert_eq!(out, (7, vec!['a', 'b'])),
        ParseResult::Continue(_) => panic!("expected to be done"),
    }
    let input = chars("");
    let mut stream = Stream::new(&input);
    match begin_rhs::<Stream<char>, CharacterState, _, u32, Vec<char>>(letters, 7, &mut stream) {
        ParseResult::Continue(AndThenState::InBetween(held, _)) => assert_eq!(held, 7),
        _ => panic!("expected to wait between the sides"),
    }
    let input = chars("ab");
    let mut stream = Stream::new(&input);
    match begin_rhs::<Stream<char>, CharacterState, _, u32, Vec<char>>(letters, 7, &mut stream) {
        ParseResult::Continue(AndThenState::InRhs(held, state)) => {
            assert_eq!(held, 7);
            assert_eq!(state.2, vec!['a', 'b']);
        },
        _ => panic!("expected the right side to suspend"),
    }
}
