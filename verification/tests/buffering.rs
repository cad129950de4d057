use parsell::buffer::{append, taken, Buffered, Span};
use parsell::contract::{Boxable, Committed, ParseResult, PeekableIterator, Stateful, Uncommitted};
use parsell::erase::{BoxableState, Boxed};
use parsell::leaf::Character;
use parsell::repeat::{Plus, Star, StarState};
use parsell::leaf::CharacterState;
use parsell::stream::Stream;

fn chars(text: &str) -> Vec<char> {
    text.chars().collect()
}

fn is_digit(ch: char) -> bool {
    ch.is_ascii_digit()
}

fn finish<'a, S, O>(state: S) -> O
where
    S: Stateful<Stream<'a, char>, O>,
{
    state.done()
}

#[test]
fn buffered_borrows_a_match_within_one_fragment() {
    let parser = Buffered::new(Plus::new(Character::new(is_digit), Vec::<char>::new));
    let input = chars("123x");
    let mut stream = Stream::new(&input);
    match parser.init(&mut stream) {
        Some(ParseResult::Done(Span::Borrowed(span))) => assert_eq!(span, &['1', '2', '3'][..]),
        _ => panic!("expected a borrowed span"),
    }
    assert_eq!(stream.rest, &['x'][..]);
}

#[test]
fn buffered_owns_a_match_that_straddles_fragments() {
    let parser = Buffered::new(Plus::new(Character::new(is_digit), Vec::<char>::new));
    let first = chars("12");
    let second = chars("34");
    let third = chars("5x");
    let mut stream = Stream::new(&first);
    let state = match parser.init(&mut stream) {
        Some(ParseResult::Continue(state)) => state,
        _ => panic!("expected to suspend"),
    };
    let mut stream = Stream::new(&second);
    let state = match state.more(&mut stream) {
        ParseResult::Continue(state) => state,
        ParseResult::Done(_) => panic!("expected to suspend"),
    };
    let mut stream = Stream::new(&third);
    match state.more(&mut stream) {
        ParseResult::Done(Span::Owned(span)) => assert_eq!(span, chars("12345")),
        _ => panic!("expected an owned span"),
    }
    assert_eq!(stream.rest, &['x'][..]);
}

#[test]
fn buffered_gives_the_same_content_on_both_paths() {
    let parser = Buffered::new(Plus::new(Character::new(is_digit), Vec::<char>::new));
    let whole = chars("2024;");
    let mut stream = Stream::new(&whole);
    let borrowed = match parser.init(&mut stream) {
        Some(ParseResult::Done(span)) => span.into_owned(),
        _ => panic!("expected to be done"),
    };
    let first = chars("20");
    let second = chars("24;");
    let mut stream = Stream::new(&first);
    let state = match parser.init(&mut stream) {
        Some(ParseResult::Continue(state)) => state,
        _ => panic!("expected to suspend"),
    };
    let mut stream = Stream::new(&second);
    let owned = match state.more(&mut stream) {
        ParseResult::Done(span) => span.into_owned(),
        ParseResult::Continue(_) => panic!("expected to be done"),
    };
    assert_eq!(borrowed, chars("2024"));
    assert_eq!(owned, borrowed);
}

#[test]
fn buffered_finishes_with_what_it_has() {
    let parser = Buffered::new(Star::new(Character::new(is_digit), Vec::<char>::new));
    let first = chars("12");
    let mut stream = Stream::new(&first);
    match parser.init(&mut stream) {
        Some(ParseResult::Continue(state)) => {
            let span: Span = finish(state);
            assert_eq!(span.as_slice(), &['1', '2'][..]);
        },
        _ => panic!("expected to suspend"),
    }
    let at_end: Span = Committed::<Stream<char>, Span>::empty(&parser);
    assert!(at_end.as_slice().is_empty());
    assert!(matches!(at_end, Span::Borrowed(_)));
}

#[test]
fn buffered_declines_with_its_parser() {
    let parser = Buffered::new(Plus::new(Character::new(is_digit), Vec::<char>::new));
    let input = chars("x1");
    let mut stream = Stream::new(&input);
    assert!(parser.init(&mut stream).is_none());
    assert_eq!(stream.rest.len(), 2);
}

#[test]
fn append_copies_to_the_end() {
    let mut buffer = chars("ab");
    append(&mut buffer, &chars("cd"));
    assert_eq!(buffer, chars("abcd"));
    append(&mut buffer, &[]);
    assert_eq!(buffer, chars("abcd"));
}

#[test]
fn taken_is_what_the_stream_no_longer_holds() {
    let input = chars("abc");
    let mut stream = Stream::new(&input);
    let before = stream.rest;
    stream.next();
    stream.next();
    assert_eq!(taken(before, &stream), &['a', 'b'][..]);
}

type Digits = StarState<Character<fn(char) -> bool>, CharacterState, Vec<char>>;

type Handle<'a> = Box<dyn Boxable<Stream<'a, char>, Vec<char>> + 'a>;

fn erase<'a>(state: BoxableState<Digits>) -> Handle<'a> {
    Box::new(state)
}

#[test]
fn boxable_state_advances_in_place() {
    let parser = Plus::new(Character::new(is_digit as fn(char) -> bool), Vec::<char>::new);
    let first = chars("1");
    let mut stream = Stream::new(&first);
    let state = match parser.init(&mut stream) {
        Some(ParseResult::Continue(state)) => state,
        _ => panic!("expected to suspend"),
    };
    let mut handle = BoxableState::new(state);
    let second = chars("2");
    let mut stream = Stream::new(&second);
    assert!(matches!(handle.more_boxable(&mut stream), ParseResult::Continue(())));
    assert!(handle.0.is_some());
    let third = chars("3.");
    let mut stream = Stream::new(&third);
    match handle.more_boxable(&mut stream) {
        ParseResult::Done(out) => assert_eq!(out, chars("123")),
        ParseResult::Continue(_) => panic!("expected to be done"),
    }
    assert_eq!(stream.rest, &['.'][..]);
}

#[test]
fn boxable_state_finishes_and_is_spent() {
    let parser = Plus::new(Character::new(is_digit as fn(char) -> bool), Vec::<char>::new);
    let first = chars("12");
    let mut stream = Stream::new(&first);
    let state = match parser.init(&mut stream) {
        Some(ParseResult::Continue(state)) => state,
        _ => panic!("expected to suspend"),
    };
    let mut handle = BoxableState::new(state);
    let out: Vec<char> = Boxable::<Stream<char>, Vec<char>>::done_boxable(&mut handle);
    assert_eq!(out, chars("12"));
    assert!(handle.0.is_none());
}

#[test]
fn boxed_passes_on_what_is_done_at_once() {
    let whole = chars("12.");
    let none = chars("x");
    let inner = Plus::new(Character::new(is_digit as fn(char) -> bool), Vec::<char>::new);
    let parser = Boxed::new(inner, erase);
    let mut stream = Stream::new(&whole);
    match parser.init(&mut stream) {
        Some(ParseResult::Done(out)) => assert_eq!(out, chars("12")),
        _ => panic!("expected to be done"),
    }
    let mut stream = Stream::new(&none);
    assert!(parser.init(&mut stream).is_none());
}

#[test]
fn boxed_puts_the_state_behind_a_handle_when_it_suspends() {
    let first = chars("1");
    let second = chars("2");
    let third = chars("3.");
    let inner = Plus::new(Character::new(is_digit as fn(char) -> bool), Vec::<char>::new);
    let parser = Boxed::new(inner, erase);
    let mut stream = Stream::new(&first);
    let handle: Handle = match parser.init(&mut stream) {
        Some(ParseResult::Continue(handle)) => handle,
        _ => panic!("expected to suspend"),
    };
    let mut stream = Stream::new(&second);
    let handle: Handle = match handle.more(&mut stream) {
        ParseResult::Continue(handle) => handle,
        ParseResult::Done(_) => panic!("expected to suspend"),
    };
    let mut stream = Stream::new(&third);
    match handle.more(&mut stream) {
        ParseResult::Done(out) => assert_eq!(out, chars("123")),
        ParseResult::Continue(_) => panic!("expected to be done"),
    }
    assert_eq!(stream.rest, &['.'][..]);
}

#[test]
fn boxed_handle_finishes() {
    let first = chars("12");
    let inner = Plus::new(Character::new(is_digit as fn(char) -> bool), Vec::<char>::new);
    let parser = Boxed::new(inner, erase);
    let mut stream = Stream::new(&first);
    match parser.init(&mut stream) {
        Some(ParseResult::Continue(handle)) => {
            let handle: Handle = handle;
            let out: Vec<char> = finish(handle);
            assert_eq!(out, chars("12"));
        },
        _ => panic!("expected to suspend"),
    }
    let at_end: Vec<char> = Committed::<Stream<char>, Vec<char>>::empty(&Boxed::new(
        Star::new(Character::new(is_digit as fn(char) -> bool), Vec::<char>::new),
        erase,
    ));
    assert_eq!(at_end, Vec::<char>::new());
}
