use parsell::contract::{Committed, ParseResult, PeekableIterator, Stateful, Uncommitted};
use parsell::leaf::{AnyCharacter, Character, CharacterRef, Emit};
use parsell::stream::Stream;

fn chars(text: &str) -> Vec<char> {
    text.chars().collect()
}

fn is_digit(ch: char) -> bool {
    ch.is_ascii_digit()
}

fn is_digit_ref(ch: &char) -> bool {
    ch.is_ascii_digit()
}

fn seven() -> u32 {
    7
}

#[test]
fn character_takes_a_digit() {
    let input = chars("1");
    let mut stream = Stream::new(&input);
    let parser = Character::new(is_digit);
    match parser.init(&mut stream) {
        Some(ParseResult::Done(ch)) => assert_eq!(ch, '1'),
        _ => panic!("expected a digit"),
    }
    assert!(stream.is_empty());
}

#[test]
fn character_declines_a_letter() {
    let input = chars("a");
    let mut stream = Stream::new(&input);
    let parser = Character::new(is_digit);
    assert!(parser.init(&mut stream).is_none());
    assert_eq!(stream.rest, &['a'][..]);
}

#[test]
fn character_declines_an_empty_fragment() {
    let input = chars("");
    let mut stream = Stream::new(&input);
    let parser = Character::new(is_digit);
    assert!(parser.init(&mut stream).is_none());
    assert!(stream.is_empty());
}

#[test]
fn character_takes_one_token_only() {
    let input = chars("42");
    let mut stream = Stream::new(&input);
    let parser = Character::new(is_digit);
    match parser.init(&mut stream) {
        Some(ParseResult::Done(ch)) => assert_eq!(ch, '4'),
        _ => panic!("expected a digit"),
    }
    assert_eq!(stream.rest, &['2'][..]);
}

#[test]
fn character_takes_a_closure() {
    let input = chars("b");
    let mut stream = Stream::new(&input);
    let parser = Character::new(|ch: char| ch == 'b');
    match parser.init(&mut stream) {
        Some(ParseResult::Done(ch)) => assert_eq!(ch, 'b'),
        _ => panic!("expected b"),
    }
}

#[test]
fn character_ref_takes_and_declines() {
    let input = chars("7x");
    let mut stream = Stream::new(&input);
    let parser = CharacterRef::new(is_digit_ref);
    match parser.init(&mut stream) {
        Some(ParseResult::Done(ch)) => assert_eq!(ch, '7'),
        _ => panic!("expected a digit"),
    }
    assert!(parser.init(&mut stream).is_none());
    assert_eq!(stream.rest, &['x'][..]);
}

#[test]
fn any_character_takes_whatever_comes() {
    let input = chars("?!");
    let mut stream = Stream::new(&input);
    match AnyCharacter.init(&mut stream) {
        Some(ParseResult::Done(out)) => assert_eq!(out, Some('?')),
        _ => panic!("expected a token"),
    }
    assert_eq!(stream.rest, &['!'][..]);
}

#[test]
fn any_character_declines_an_empty_fragment() {
    let input = chars("");
    let mut stream = Stream::new(&input);
    assert!(AnyCharacter.init(&mut stream).is_none());
    let at_end: Option<char> = Committed::<Stream<char>, Option<char>>::empty(&AnyCharacter);
    assert_eq!(at_end, None);
}

#[test]
fn any_character_suspends_until_a_token_comes() {
    let nothing = chars("");
    let mut stream = Stream::new(&nothing);
    let state = match AnyCharacter.more(&mut stream) {
        ParseResult::Continue(state) => state,
        ParseResult::Done(_) => panic!("no token to take"),
    };
    let input = chars("z");
    let mut stream = Stream::new(&input);
    match state.more(&mut stream) {
        ParseResult::Done(out) => assert_eq!(out, Some('z')),
        ParseResult::Continue(_) => panic!("a token was there"),
    }
    let finished: Option<char> = Stateful::<Stream<char>, Option<char>>::done(AnyCharacter);
    assert_eq!(finished, None);
}

#[test]
fn emit_builds_without_reading() {
    let input = chars("abc");
    let mut stream = Stream::new(&input);
    let parser = Emit::new(seven);
    match parser.init(&mut stream) {
        Some(ParseResult::Done(out)) => assert_eq!(out, 7),
        _ => panic!("expected a value"),
    }
    assert_eq!(stream.rest.len(), 3);
}

#[test]
fn emit_declines_an_empty_fragment_and_answers_at_the_end() {
    let input = chars("");
    let mut stream = Stream::new(&input);
    let parser = Emit::new(seven);
    assert!(parser.init(&mut stream).is_none());
    let at_end: u32 = Committed::<Stream<char>, u32>::empty(&parser);
    assert_eq!(at_end, 7);
}

#[test]
fn emit_as_a_state_is_done_at_once() {
    let input = chars("abc");
    let mut stream = Stream::new(&input);
    match Emit::new(seven).more(&mut stream) {
        ParseResult::Done(out) => assert_eq!(out, 7),
        ParseResult::Continue(_) => panic!("never suspends"),
    }
    assert_eq!(stream.rest.len(), 3);
    let finished: u32 = Stateful::<Stream<char>, u32>::done(Emit::new(seven));
    assert_eq!(finished, 7);
}

#[test]
fn stream_next_walks_the_fragment() {
    let input = chars("ab");
    let mut stream = Stream::new(&input);
    assert!(!stream.is_empty());
    assert_eq!(stream.next(), Some('a'));
    assert_eq!(stream.next(), Some('b'));
    assert_eq!(stream.next(), None);
    assert!(stream.is_empty());
}

#[test]
fn stream_next_if_leaves_what_fails_the_test() {
    let input = chars("1a");
    let mut stream = Stream::new(&input);
    assert_eq!(stream.next_if(is_digit), Some('1'));
    assert_eq!(stream.next_if(is_digit), None);
    assert_eq!(stream.rest, &['a'][..]);
    assert_eq!(stream.next_if_ref(is_digit_ref), None);
    assert_eq!(stream.next_if_ref(|ch: &char| *ch == 'a'), Some('a'));
    assert!(stream.is_empty());
}
