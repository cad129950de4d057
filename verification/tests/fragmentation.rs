use parsell::buffer::{Buffered, Span};
use parsell::choice::OrElse;
use parsell::contract::{Committed, ParseResult, PeekableIterator, Stateful, Uncommitted};
use parsell::leaf::{AnyCharacter, Character, Emit};
use parsell::repeat::{Plus, Star};
use parsell::sequence::AndThen;
use parsell::stream::Stream;
use parsell::transform::{Mapped, Opt};

fn chars(text: &str) -> Vec<char> {
    text.chars().collect()
}

fn is_digit(ch: char) -> bool {
    ch.is_ascii_digit()
}

fn is_alpha(ch: char) -> bool {
    ch.is_ascii_alphabetic()
}

fn dash() -> char {
    '-'
}

/// Every way to cut `text` into one, two or three fragments.
fn cuts(text: &str) -> Vec<Vec<Vec<char>>> {
    let all = chars(text);
    let mut out = vec![vec![all.clone()]];
    for i in 0..=all.len() {
        out.push(vec![all[..i].to_vec(), all[i..].to_vec()]);
        for j in i..=all.len() {
            out.push(vec![all[..i].to_vec(), all[i..j].to_vec(), all[j..].to_vec()]);
        }
    }
    out
}

/// Hands the fragments to the parser one after the other, passes over a
/// fragment without tokens that the parser declines, and finishes the parse
/// if it is still suspended after the last. Where the parser never started,
/// it is asked for its answer.
fn drive<'a, P, O>(parser: &P, frags: &'a [Vec<char>]) -> Option<O>
where
    P: Committed<Stream<'a, char>, O>,
{
    let mut state: Option<P::State> = None;
    for frag in frags {
        let mut stream = Stream::new(frag);
        match state.take() {
            None => match parser.init(&mut stream) {
                None => {
                    if !stream.is_empty() {
                        return None;
                    }
                },
                Some(ParseResult::Done(out)) => return Some(out),
                Some(ParseResult::Continue(next)) => state = Some(next),
            },
            Some(current) => match current.more(&mut stream) {
                ParseResult::Done(out) => return Some(out),
                ParseResult::Continue(next) => state = Some(next),
            },
        }
    }
    match state {
        Some(current) => Some(current.done()),
        None => Some(parser.empty()),
    }
}

#[test]
fn star_yields_the_same_however_the_input_is_cut() {
    let parser = Star::new(Character::new(is_digit), Vec::<char>::new);
    for text in ["123x", "123", "x", ""] {
        let all = cuts(text);
        let whole: Option<Vec<char>> = drive(&parser, &all[0]);
        let digits: Vec<char> = text.chars().take_while(|ch| ch.is_ascii_digit()).collect();
        assert_eq!(whole, Some(digits));
        for frags in &all {
            let out: Option<Vec<char>> = drive(&parser, frags);
            assert_eq!(out, whole);
        }
    }
}

#[test]
fn sequence_yields_the_pair_wherever_the_boundaries_fall() {
    let digits = Plus::new(Character::new(is_digit), Vec::<char>::new);
    let letters = Star::new(Character::new(is_alpha), Vec::<char>::new);
    let parser = AndThen::new(Star::new(Character::new(is_digit), Vec::<char>::new), letters);
    for frags in &cuts("12ab.") {
        let out: Option<(Vec<char>, Vec<char>)> = drive(&parser, frags);
        assert_eq!(out, Some((vec!['1', '2'], vec!['a', 'b'])));
    }
    for frags in &cuts("12ab") {
        let out: Option<(Vec<char>, Vec<char>)> = drive(&parser, frags);
        assert_eq!(out, Some((vec!['1', '2'], vec!['a', 'b'])));
    }
    for frags in &cuts("12") {
        let out: Option<(Vec<char>, Vec<char>)> = drive(&parser, frags);
        assert_eq!(out, Some((vec!['1', '2'], vec![])));
    }
    let strict = AndThen::new(digits, letters);
    for frags in &cuts("7up!") {
        let mut state = None;
        let mut out = None;
        for frag in frags {
            let mut stream = Stream::new(frag);
            match state.take() {
                None => match strict.init(&mut stream) {
                    None => assert!(stream.is_empty()),
                    Some(ParseResult::Done(pair)) => out = Some(pair),
                    Some(ParseResult::Continue(next)) => state = Some(next),
                },
                Some(current) => match current.more(&mut stream) {
                    ParseResult::Done(pair) => out = Some(pair),
                    ParseResult::Continue(next) => state = Some(next),
                },
            }
            if out.is_some() {
                break;
            }
        }
        assert_eq!(out, Some((vec!['7'], vec!['u', 'p'])));
    }
}

#[test]
fn nested_combinators_yield_the_same_however_the_input_is_cut() {
    let number = Mapped::new(
        Plus::new(Character::new(is_digit), Vec::<char>::new),
        |digits: Vec<char>| digits.len(),
    );
    let word = Mapped::new(
        Plus::new(Character::new(is_alpha), Vec::<char>::new),
        |letters: Vec<char>| letters.len() * 100,
    );
    let item = OrElse::new(number, word);
    let parser = Star::new(
        AndThen::new(item, Opt::new(Character::new(|ch: char| ch == ','))),
        Vec::<(usize, Option<char>)>::new,
    );
    let text = "12,ab,345.";
    let all = cuts(text);
    let whole: Option<Vec<(usize, Option<char>)>> = drive(&parser, &all[0]);
    assert_eq!(whole, Some(vec![(2, Some(',')), (200, Some(',')), (3, None)]));
    for frags in &all {
        let out: Option<Vec<(usize, Option<char>)>> = drive(&parser, frags);
        assert_eq!(out, whole);
    }
}

#[test]
fn buffered_holds_what_was_read_however_the_input_is_cut() {
    let parser = Buffered::new(Star::new(Character::new(is_digit), Vec::<char>::new));
    for text in ["2024;", "2024", ";"] {
        let expected: Vec<char> = text.chars().take_while(|ch| ch.is_ascii_digit()).collect();
        for frags in &cuts(text) {
            let out: Option<Span> = drive(&parser, frags);
            match out {
                Some(span) => assert_eq!(span.as_slice(), &expected[..]),
                None => panic!("expected a span"),
            }
        }
    }
}

#[test]
fn buffered_borrows_exactly_when_the_match_lies_in_one_fragment() {
    let parser = Buffered::new(Plus::new(Character::new(is_digit), Vec::<char>::new));
    let one = vec![chars("2024;")];
    let mut stream = Stream::new(&one[0]);
    match parser.init(&mut stream) {
        Some(ParseResult::Done(span)) => assert!(matches!(span, Span::Borrowed(_))),
        _ => panic!("expected to be done"),
    }
    let two = vec![chars("20"), chars("24;")];
    let mut stream = Stream::new(&two[0]);
    let state = match parser.init(&mut stream) {
        Some(ParseResult::Continue(state)) => state,
        _ => panic!("expected to suspend"),
    };
    let mut stream = Stream::new(&two[1]);
    match state.more(&mut stream) {
        ParseResult::Done(span) => assert!(matches!(span, Span::Owned(_))),
        ParseResult::Continue(_) => panic!("expected to be done"),
    }
}

#[test]
fn choice_does_what_its_second_side_does_where_the_first_declines() {
    let second = Plus::new(Character::new(is_alpha), Vec::<char>::new);
    let parser = OrElse::new(Plus::new(Character::new(is_digit), Vec::<char>::new), second);
    for text in ["ab1", "a", "!x"] {
        let input = chars(text);
        let mut left = Stream::new(&input);
        let mut right = Stream::new(&input);
        let ours = parser.init(&mut left);
        let theirs = second.init(&mut right);
        assert_eq!(left.rest, right.rest);
        match (ours, theirs) {
            (None, None) => {},
            (Some(ParseResult::Done(a)), Some(ParseResult::Done(b))) => assert_eq!(a, b),
            (Some(ParseResult::Continue(a)), Some(ParseResult::Continue(b))) => {
                let a: Vec<char> = Stateful::<Stream<char>, Vec<char>>::done(a);
                let b: Vec<char> = Stateful::<Stream<char>, Vec<char>>::done(b);
                assert_eq!(a, b);
            },
            _ => panic!("the choice and its second side differ"),
        }
    }
}

#[test]
fn choice_stays_with_its_first_side_once_it_has_committed() {
    let first = Plus::new(Character::new(is_digit), Vec::<char>::new);
    let second = Plus::new(Character::new(is_alpha), Vec::<char>::new);
    let parser = OrElse::new(first, second);
    let head = chars("1");
    let tail = chars("ab");
    let mut stream = Stream::new(&head);
    let state = match parser.init(&mut stream) {
        Some(ParseResult::Continue(state)) => state,
        _ => panic!("expected to suspend"),
    };
    let mut stream = Stream::new(&tail);
    match state.more(&mut stream) {
        ParseResult::Done(out) => assert_eq!(out, vec!['1']),
        ParseResult::Continue(_) => panic!("expected to be done"),
    }
    assert_eq!(stream.rest.len(), 2);
}

#[test]
fn an_answer_stands_in_where_the_input_ends_before_the_parser_starts() {
    let parser = OrElse::new(Character::new(is_digit), Emit::new(dash));
    let nothing: Vec<Vec<char>> = vec![];
    let out: Option<char> = drive(&parser, &nothing);
    assert_eq!(out, Some('-'));
    let empty = vec![chars(""), chars("")];
    let out: Option<char> = drive(&parser, &empty);
    assert_eq!(out, Some('-'));
    let later = vec![chars(""), chars("7")];
    let out: Option<char> = drive(&parser, &later);
    assert_eq!(out, Some('7'));
    let other = vec![chars(""), chars("x")];
    let out: Option<char> = drive(&parser, &other);
    assert_eq!(out, Some('-'));
    let any: Option<Option<char>> = drive(&AnyCharacter, &later);
    assert_eq!(any, Some(Some('7')));
    let none: Option<Option<char>> = drive(&AnyCharacter, &empty);
    assert_eq!(none, Some(None));
}
