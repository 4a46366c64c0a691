use nfa_regex::regex::Regex;

fn sym(c: char) -> Regex {
    Regex::Symbol(c)
}

fn concat(a: Regex, b: Regex) -> Regex {
    Regex::Concat((Box::new(a), Box::new(b)))
}

fn union(a: Regex, b: Regex) -> Regex {
    Regex::Union((Box::new(a), Box::new(b)))
}

fn star(a: Regex) -> Regex {
    Regex::Star(Box::new(a))
}

fn plus(a: Regex) -> Regex {
    Regex::Plus(Box::new(a))
}

#[test]
fn test_concat() {
    assert_eq!(Regex::new("ab"), concat(sym('a'), sym('b')))
}

#[test]
fn test_plus() {
    assert_eq!(
        Regex::new("(a|b)+c"),
        concat(plus(union(sym('a'), sym('b'))), sym('c'))
    )
}

#[test]
fn test_union() {
    assert_eq!(Regex::new("(a|b)"), union(sym('a'), sym('b')))
}

#[test]
fn test_none() {
    assert_eq!(Regex::new(""), Regex::Empty)
}

#[test]
fn test_star() {
    assert_eq!(Regex::new("a*b"), concat(star(sym('a')), sym('b')))
}

#[test]
fn literals_parse_to_left_chain() {
    assert_eq!(
        Regex::new("abc1"),
        concat(concat(concat(sym('a'), sym('b')), sym('c')), sym('1'))
    );
    assert_eq!(Regex::new("Z"), sym('Z'));
    assert_eq!(Regex::new("a b"), concat(concat(sym('a'), sym(' ')), sym('b')));
}

#[test]
fn star_applies_to_whole_left_expression() {
    assert_eq!(
        Regex::new("ab*"),
        concat(star(concat(sym('a'), sym('b'))), Regex::Empty)
    );
}

#[test]
fn trailing_plus_takes_empty_term() {
    assert_eq!(Regex::new("a+"), concat(plus(sym('a')), Regex::Empty));
}

#[test]
fn dot_is_wildcard() {
    assert_eq!(Regex::new("a.c"), concat(concat(sym('a'), Regex::Dot), sym('c')));
}

#[test]
fn unknown_characters_become_empty() {
    assert_eq!(Regex::new("a$b"), concat(sym('a'), sym('b')));
    assert_eq!(Regex::new("*a"), concat(Regex::Empty, sym('a')));
    assert_eq!(Regex::new(")"), Regex::Empty);
    assert_eq!(Regex::new("a|"), union(sym('a'), Regex::Empty));
}

#[test]
fn group_ends_at_matching_paren() {
    assert_eq!(
        Regex::new("a(b)*"),
        concat(star(concat(sym('a'), sym('b'))), Regex::Empty)
    );
    assert_eq!(Regex::new("(a)b"), concat(sym('a'), sym('b')));
    assert_eq!(
        Regex::new("x(a)*"),
        concat(star(concat(sym('x'), sym('a'))), Regex::Empty)
    );
    assert_eq!(
        Regex::new("(0)*1(0)*"),
        concat(
            star(concat(concat(star(sym('0')), sym('1')), sym('0'))),
            Regex::Empty
        )
    );
    assert_eq!(
        Regex::new("((a|b)c)d"),
        concat(concat(union(sym('a'), sym('b')), sym('c')), sym('d'))
    );
    assert_eq!(Regex::new("x(a|b)"), concat(sym('x'), union(sym('a'), sym('b'))));
}

#[test]
fn unclosed_group_runs_to_end() {
    assert_eq!(Regex::new("(ab"), concat(sym('a'), sym('b')));
    assert_eq!(Regex::new("a(b"), concat(sym('a'), sym('b')));
}

#[test]
fn clone_gives_equal_tree() {
    let r = Regex::new("(a|b)*c+.");
    assert_eq!(r.clone(), r);
}
