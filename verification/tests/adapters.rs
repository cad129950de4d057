use parsell::adapt::{
    Dereference, First, Function2, Function3, Function4, Function5, Function6, IsSome, MkSome,
    Second, Try, TryDiscard, TryOpt, TryZip, TryZipTry, Unwrap, ZipTry,
};
use parsell::contract::{Consumer, Factory, Function, VariantFunction};

fn sub2(a: i32, b: i32) -> i32 {
    a - b
}

fn digit(ch: char) -> Option<u32> {
    ch.to_digit(10)
}

fn length(text: &String) -> usize {
    text.len()
}

#[test]
fn function2_applies_to_a_pair() {
    assert_eq!(Function2::new(sub2).apply((10, 3)), 7);
}

#[test]
fn function3_applies_to_nested_pairs_in_order() {
    let f = Function3::new(|a: i32, b: i32, c: i32| a * 100 + b * 10 + c);
    assert_eq!(f.apply(((1, 2), 3)), 123);
}

#[test]
fn function4_applies_to_nested_pairs_in_order() {
    let f = Function4::new(|a: i32, b: i32, c: i32, d: i32| a * 1000 + b * 100 + c * 10 + d);
    assert_eq!(f.apply((((1, 2), 3), 4)), 1234);
}

#[test]
fn function5_applies_to_nested_pairs_in_order() {
    let f = Function5::new(|a: i32, b: i32, c: i32, d: i32, e: i32| {
        a * 10000 + b * 1000 + c * 100 + d * 10 + e
    });
    assert_eq!(f.apply(((((1, 2), 3), 4), 5)), 12345);
}

#[test]
fn function6_applies_to_nested_pairs_in_order() {
    let f = Function6::new(|a: i32, b: i32, c: i32, d: i32, e: i32, g: i32| {
        a * 100000 + b * 10000 + c * 1000 + d * 100 + e * 10 + g
    });
    assert_eq!(f.apply((((((1, 2), 3), 4), 5), 6)), 123456);
}

#[test]
fn try_maps_a_success_and_passes_a_failure_on() {
    let f = Try::new(|n: i32| n + 1);
    let ok: Result<i32, &str> = Ok(1);
    let err: Result<i32, &str> = Err("bad");
    assert_eq!(Function::apply(&f, ok), Ok(2));
    assert_eq!(Function::apply(&f, err), Err("bad"));
}

#[test]
fn try_as_a_variant_function() {
    let f = Try::new(First);
    let ok: Result<(i32, ()), &str> = Ok((4, ()));
    let err: Result<(i32, ()), &str> = Err("bad");
    let out: Result<i32, &str> = VariantFunction::apply(&f, ok);
    assert_eq!(out, Ok(4));
    let out: Result<i32, &str> = VariantFunction::apply(&f, err);
    assert_eq!(out, Err("bad"));
}

#[test]
fn try_discard_keeps_only_the_failure() {
    let ok: Result<i32, &str> = Ok(1);
    let err: Result<i32, &str> = Err("bad");
    assert_eq!(TryDiscard.apply(ok), Ok(()));
    assert_eq!(TryDiscard.apply(err), Err("bad"));
}

#[test]
fn try_zip_pairs_a_fallible_value_with_a_plain_one() {
    let ok: Result<i32, &str> = Ok(1);
    let err: Result<i32, &str> = Err("bad");
    assert_eq!(TryZip.apply((ok, 'x')), Ok((1, 'x')));
    assert_eq!(TryZip.apply((err, 'x')), Err("bad"));
}

#[test]
fn zip_try_pairs_a_plain_value_with_a_fallible_one() {
    let ok: Result<i32, &str> = Ok(1);
    let err: Result<i32, &str> = Err("bad");
    assert_eq!(ZipTry.apply(('x', ok)), Ok(('x', 1)));
    assert_eq!(ZipTry.apply(('x', err)), Err("bad"));
}

#[test]
fn try_zip_try_keeps_the_first_failure() {
    let ok1: Result<i32, &str> = Ok(1);
    let ok2: Result<char, &str> = Ok('x');
    let err1: Result<i32, &str> = Err("first");
    let err2: Result<char, &str> = Err("second");
    assert_eq!(Function::apply(&TryZipTry, (ok1, ok2)), Ok((1, 'x')));
    assert_eq!(Function::apply(&TryZipTry, (err1, ok2)), Err("first"));
    assert_eq!(Function::apply(&TryZipTry, (ok1, err2)), Err("second"));
    assert_eq!(Function::apply(&TryZipTry, (err1, err2)), Err("first"));
    let out: Result<(i32, char), &str> = VariantFunction::apply(&TryZipTry, (err1, err2));
    assert_eq!(out, Err("first"));
    let out: Result<(i32, char), &str> = VariantFunction::apply(&TryZipTry, (ok1, ok2));
    assert_eq!(out, Ok((1, 'x')));
}

#[test]
fn try_opt_turns_an_option_of_results_inside_out() {
    let present: Option<Result<i32, &str>> = Some(Ok(1));
    let failed: Option<Result<i32, &str>> = Some(Err("bad"));
    let absent: Option<Result<i32, &str>> = None;
    assert_eq!(Function::apply(&TryOpt, present), Ok(Some(1)));
    assert_eq!(Function::apply(&TryOpt, failed), Err("bad"));
    assert_eq!(Function::apply(&TryOpt, absent), Ok(None));
    let out: Result<Option<i32>, &str> = VariantFunction::apply(&TryOpt, failed);
    assert_eq!(out, Err("bad"));
    let out: Result<Option<i32>, &str> = VariantFunction::apply(&TryOpt, absent);
    assert_eq!(out, Ok(None));
}

#[test]
fn mk_some_wraps() {
    assert_eq!(MkSome.apply(3), Some(3));
}

#[test]
fn is_some_tells_whether_the_function_gives_a_value() {
    let f = IsSome::new(digit);
    assert!(f.apply('7'));
    assert!(!f.apply('x'));
}

#[test]
fn unwrap_gives_the_value() {
    let f = Unwrap::new(digit);
    assert_eq!(f.apply('7'), 7);
}

#[test]
fn dereference_lends_the_argument() {
    let f = Dereference::new(length);
    assert_eq!(f.apply(String::from("four")), 4);
}

#[test]
fn first_and_second_project() {
    assert_eq!(Function::apply(&First, (1, 'x')), 1);
    assert_eq!(Function::apply(&Second, (1, 'x')), 'x');
    let left: i32 = VariantFunction::apply(&First, (1, ()));
    assert_eq!(left, 1);
    let right: char = VariantFunction::apply(&Second, ((), 'x'));
    assert_eq!(right, 'x');
}

#[test]
fn a_plain_function_is_a_factory() {
    let out: Vec<char> = Factory::build(&Vec::<char>::new);
    assert!(out.is_empty());
}

#[test]
fn a_vector_accepts_items_at_its_end() {
    let mut acc = vec![1, 2];
    acc.accept(3);
    assert_eq!(acc, vec![1, 2, 3]);
    let mut unit = ();
    unit.accept(3);
    assert_eq!(unit, ());
}
