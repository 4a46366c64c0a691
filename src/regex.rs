use vstd::prelude::*;

verus! {

/// Syntax tree of a pattern.
#[derive(Debug, PartialEq)]
pub enum Regex {
    /// Exactly one occurrence of the character.
    Symbol(char),
    /// The left expression immediately followed by the right one.
    Concat((Box<Regex>, Box<Regex>)),
    /// Either the left or the right expression.
    Union((Box<Regex>, Box<Regex>)),
    /// One or more repetitions.
    Plus(Box<Regex>),
    /// Zero or more repetitions.
    Star(Box<Regex>),
    /// Exactly one occurrence of any character.
    Dot,
    /// The empty string only.
    Empty,
}

impl Clone for Regex {
    fn clone(&self) -> (r: Regex)
        ensures
            r == *self,
        decreases self,
    {
        match self {
            Regex::Symbol(c) => Regex::Symbol(*c),
            Regex::Concat((left, right)) => Regex::Concat(
                (Box::new(Regex::clone(&**left)), Box::new(Regex::clone(&**right))),
            ),
            Regex::Union((left, right)) => Regex::Union(
                (Box::new(Regex::clone(&**left)), Box::new(Regex::clone(&**right))),
            ),
            Regex::Plus(inner) => Regex::Plus(Box::new(Regex::clone(&**inner))),
            Regex::Star(inner) => Regex::Star(Box::new(Regex::clone(&**inner))),
            Regex::Dot => Regex::Dot,
            Regex::Empty => Regex::Empty,
        }
    }
}

/// A character that stands for itself in a pattern: an ASCII letter or digit,
/// or a space.
pub open spec fn is_symbol_char(c: char) -> bool {
    c == ' ' || ('0' <= c && c <= '9') || ('a' <= c && c <= 'z') || ('A' <= c && c <= 'Z')
}

/// How many characters of `s` come before the `)` that closes a group whose
/// `(` stands just before `s`, with `depth` groups opened inside it still
/// unclosed; all of `s` where that `)` is missing.
pub open spec fn group_len(s: Seq<char>, depth: nat) -> nat
    decreases s.len(),
{
    if s.len() == 0 {
        0
    } else if s[0] == ')' && depth == 0 {
        0
    } else {
        let inner = if s[0] == '(' {
            depth + 1
        } else if s[0] == ')' {
            (depth - 1) as nat
        } else {
            depth
        };
        1 + group_len(s.drop_first(), inner)
    }
}

/// How many characters the term at the front of `s` spans. A group opened by
/// `(` runs to its matching `)`, or to the end of `s` where that `)` is
/// missing; a `)` on its own is a term of one character that denotes the
/// empty expression.
pub open spec fn token_len(s: Seq<char>) -> nat {
    if s.len() == 0 {
        0
    } else if s[0] == '(' {
        let g = group_len(s.drop_first(), 0);
        if g < s.len() - 1 {
            g + 2
        } else {
            s.len()
        }
    } else {
        1
    }
}

/// The term at the front of `s`: a symbol, the wildcard `.`, the tree of the
/// text inside a group, or `Empty` where nothing recognizable stands.
pub open spec fn token_spec(s: Seq<char>) -> Regex
    decreases s.len(), 0nat,
{
    if s.len() == 0 {
        Regex::Empty
    } else if s[0] == '(' {
        let inner = s.drop_first();
        let g = group_len(inner, 0);
        if g < inner.len() {
            parse_spec(inner.take(g as int))
        } else {
            parse_spec(inner)
        }
    } else if s[0] == '.' {
        Regex::Dot
    } else if is_symbol_char(s[0]) {
        Regex::Symbol(s[0])
    } else {
        Regex::Empty
    }
}

/// Folds the operators and terms of `s`, left to right, onto the expression
/// `left` accumulated so far. `*` and `+` apply to all of `left` and are
/// followed by an optional term; `|` takes the next term as its right side; a
/// term on its own is concatenated unless it is `Empty`.
pub open spec fn expr_spec(left: Regex, s: Seq<char>) -> Regex
    decreases s.len(), 1nat,
{
    if s.len() == 0 {
        left
    } else {
        let rest = s.drop_first();
        let after = rest.skip(token_len(rest) as int);
        if s[0] == '|' {
            expr_spec(Regex::Union((Box::new(left), Box::new(token_spec(rest)))), after)
        } else if s[0] == '*' {
            expr_spec(
                Regex::Concat((Box::new(Regex::Star(Box::new(left))), Box::new(token_spec(rest)))),
                after,
            )
        } else if s[0] == '+' {
            expr_spec(
                Regex::Concat((Box::new(Regex::Plus(Box::new(left))), Box::new(token_spec(rest)))),
                after,
            )
        } else {
            let t = token_spec(s);
            let next = if t is Empty {
                left
            } else {
                Regex::Concat((Box::new(left), Box::new(t)))
            };
            expr_spec(next, s.skip(token_len(s) as int))
        }
    }
}

/// The syntax tree of the pattern `s`: `Empty` for the empty pattern, else the
/// first term with the rest folded onto it.
pub open spec fn parse_spec(s: Seq<char>) -> Regex
    decreases s.len(), 1nat,
{
    if s.len() == 0 {
        Regex::Empty
    } else {
        expr_spec(token_spec(s), s.skip(token_len(s) as int))
    }
}

impl Regex {
    /// Parses a pattern.
    pub fn new(input: &str) -> (r: Regex)
        ensures
            r == parse_spec(input@),
    {
        let chars = chars_of(input);
        assert(chars@.subrange(0, chars.len() as int) =~= chars@);
        Regex::parse(&chars, 0, chars.len())
    }

    /// Parses the pattern `chars[pos..end]`.
    fn parse(chars: &Vec<char>, pos: usize, end: usize) -> (r: Regex)
        requires
            pos <= end <= chars.len(),
        ensures
            r == parse_spec(chars@.subrange(pos as int, end as int)),
        decreases end - pos, 1nat,
    {
        if pos == end {
            return Regex::Empty;
        }
        let (token, next) = Regex::parse_token(chars, pos, end);
        assert(chars@.subrange(pos as int, end as int).skip(next - pos) =~= chars@.subrange(
            next as int,
            end as int,
        ));
        Regex::parse_expression(token, chars, next, end)
    }

    /// Folds the operators and terms of `chars[pos..end]` onto `left`.
    fn parse_expression(left: Regex, chars: &Vec<char>, pos: usize, end: usize) -> (r: Regex)
        requires
            pos <= end <= chars.len(),
        ensures
            r == expr_spec(left, chars@.subrange(pos as int, end as int)),
        decreases end - pos, 1nat,
    {
        let ghost target = expr_spec(left, chars@.subrange(pos as int, end as int));
        let mut left = left;
        let mut i = pos;
        while i < end
            invariant
                pos <= i <= end <= chars.len(),
                expr_spec(left, chars@.subrange(i as int, end as int)) == target,
            decreases end - i,
        {
            let ghost s = chars@.subrange(i as int, end as int);
            let c = chars[i];
            if c == '|' || c == '*' || c == '+' {
                let (right, next) = Regex::parse_token(chars, i + 1, end);
                assert(s.drop_first() =~= chars@.subrange(i + 1, end as int));
                assert(chars@.subrange(i + 1, end as int).skip(next - (i + 1)) =~= chars@.subrange(
                    next as int,
                    end as int,
                ));
                if c == '|' {
                    left = Regex::Union((Box::new(left), Box::new(right)));
                } else if c == '*' {
                    left = Regex::Concat((Box::new(Regex::Star(Box::new(left))), Box::new(right)));
                } else {
                    left = Regex::Concat((Box::new(Regex::Plus(Box::new(left))), Box::new(right)));
                }
                i = next;
            } else {
                let (right, next) = Regex::parse_token(chars, i, end);
                assert(s.skip(next - i) =~= chars@.subrange(next as int, end as int));
                left = match right {
                    Regex::Empty => left,
                    _ => Regex::Concat((Box::new(left), Box::new(right))),
                };
                i = next;
            }
        }
        assert(chars@.subrange(i as int, end as int).len() == 0);
        left
    }

    /// The position of the `)` that closes a group whose text starts at
    /// `start`, or `end` where that `)` is missing.
    fn group_end(chars: &Vec<char>, start: usize, end: usize) -> (r: usize)
        requires
            start <= end <= chars.len(),
        ensures
            r == start + group_len(chars@.subrange(start as int, end as int), 0),
    {
        let mut i = start;
        let mut depth: usize = 0;
        while i < end
            invariant
                start <= i <= end <= chars.len(),
                depth <= i - start,
                group_len(chars@.subrange(start as int, end as int), 0) == (i - start) + group_len(
                    chars@.subrange(i as int, end as int),
                    depth as nat,
                ),
            decreases end - i,
        {
            let ghost s = chars@.subrange(i as int, end as int);
            let c = chars[i];
            assert(s[0] == c);
            assert(s.drop_first() =~= chars@.subrange(i + 1, end as int));
            if c == ')' {
                if depth == 0 {
                    return i;
                }
                depth = depth - 1;
            } else if c == '(' {
                depth = depth + 1;
            }
            i = i + 1;
        }
        assert(chars@.subrange(i as int, end as int).len() == 0);
        i
    }

    /// Reads the term that starts at `pos`, within `chars[..end]`; returns it
    /// with the position after it.
    fn parse_token(chars: &Vec<char>, pos: usize, end: usize) -> (r: (Regex, usize))
        requires
            pos <= end <= chars.len(),
        ensures
            r.0 == token_spec(chars@.subrange(pos as int, end as int)),
            r.1 == pos + token_len(chars@.subrange(pos as int, end as int)),
        decreases end - pos, 0nat,
    {
        if pos == end {
            return (Regex::Empty, pos);
        }
        let ghost s = chars@.subrange(pos as int, end as int);
        let c = chars[pos];
        assert(s[0] == c);
        if c == '(' {
            assert(s.drop_first() =~= chars@.subrange(pos + 1, end as int));
            let close = Regex::group_end(chars, pos + 1, end);
            if close < end {
                assert(s.drop_first().take(close - (pos + 1)) =~= chars@.subrange(pos + 1, close as int));
                (Regex::parse(chars, pos + 1, close), close + 1)
            } else {
                (Regex::parse(chars, pos + 1, end), end)
            }
        } else if c == '.' {
            (Regex::Dot, pos + 1)
        } else if c == ' ' || ('0' <= c && c <= '9') || ('a' <= c && c <= 'z') || ('A' <= c
            && c <= 'Z') {
            (Regex::Symbol(c), pos + 1)
        } else {
            (Regex::Empty, pos + 1)
        }
    }
}

/// `w` is one of the strings that `r` matches. A `Star` matches the empty
/// string or a non-empty piece matched by its inner tree followed by more of
/// the same; a `Plus` matches one piece matched by its inner tree, or a
/// non-empty such piece followed by more of the same.
pub open spec fn lang(r: Regex, w: Seq<char>) -> bool
    decreases r, w.len(),
{
    match r {
        Regex::Symbol(c) => w == seq![c],
        Regex::Dot => w.len() == 1,
        Regex::Empty => w.len() == 0,
        Regex::Concat((left, right)) => exists|i: int|
            0 <= i <= w.len() && lang(*left, #[trigger] w.take(i)) && lang(*right, w.skip(i)),
        Regex::Union((left, right)) => lang(*left, w) || lang(*right, w),
        Regex::Star(inner) => w.len() == 0 || exists|i: int|
            1 <= i <= w.len() && lang(*inner, #[trigger] w.take(i)) && lang(r, w.skip(i)),
        Regex::Plus(inner) => lang(*inner, w) || exists|i: int|
            1 <= i <= w.len() && lang(*inner, #[trigger] w.take(i)) && lang(r, w.skip(i)),
    }
}

/// `left` with the characters of `s` concatenated onto it one by one, as
/// symbols, left-associated.
pub open spec fn append_literals(left: Regex, s: Seq<char>) -> Regex
    decreases s.len(),
{
    if s.len() == 0 {
        left
    } else {
        Regex::Concat((Box::new(append_literals(left, s.drop_last())), Box::new(Regex::Symbol(s.last()))))
    }
}

/// The left-associated chain of concatenations of the symbols of `s`, in
/// order: `Concat(Concat(a, b), c)` for `abc`.
pub open spec fn literal_chain(s: Seq<char>) -> Regex
    decreases s.len(),
{
    if s.len() == 0 {
        Regex::Empty
    } else if s.len() == 1 {
        Regex::Symbol(s[0])
    } else {
        Regex::Concat((Box::new(literal_chain(s.drop_last())), Box::new(Regex::Symbol(s.last()))))
    }
}

proof fn lemma_append_first(left: Regex, c: char, s: Seq<char>)
    ensures
        append_literals(Regex::Concat((Box::new(left), Box::new(Regex::Symbol(c)))), s)
            == append_literals(left, seq![c] + s),
    decreases s.len(),
{
    let x = Regex::Concat((Box::new(left), Box::new(Regex::Symbol(c))));
    let cs = seq![c] + s;
    if s.len() > 0 {
        assert(cs.drop_last() =~= seq![c] + s.drop_last());
        assert(cs.last() == s.last());
        lemma_append_first(left, c, s.drop_last());
    } else {
        assert(cs.drop_last() =~= Seq::<char>::empty());
        assert(append_literals(left, cs.drop_last()) == left);
    }
}

proof fn lemma_expr_literals(left: Regex, s: Seq<char>)
    requires
        forall|i: int| 0 <= i < s.len() ==> is_symbol_char(#[trigger] s[i]),
    ensures
        expr_spec(left, s) == append_literals(left, s),
    decreases s.len(),
{
    if s.len() > 0 {
        assert(is_symbol_char(s[0]));
        let next = Regex::Concat((Box::new(left), Box::new(Regex::Symbol(s[0]))));
        assert(s.skip(1) =~= s.drop_first());
        assert(token_spec(s) == Regex::Symbol(s[0]));
        assert(token_len(s) == 1);
        assert(expr_spec(left, s) == expr_spec(next, s.drop_first()));
        assert forall|i: int| 0 <= i < s.drop_first().len() implies is_symbol_char(#[trigger] s.drop_first()[i]) by {
            assert(s.drop_first()[i] == s[i + 1]);
        }
        lemma_expr_literals(next, s.drop_first());
        lemma_append_first(left, s[0], s.drop_first());
        assert(seq![s[0]] + s.drop_first() =~= s);
    }
}

proof fn lemma_chain_append(c: char, s: Seq<char>)
    ensures
        append_literals(Regex::Symbol(c), s) == literal_chain(seq![c] + s),
    decreases s.len(),
{
    let cs = seq![c] + s;
    if s.len() > 0 {
        assert(cs.drop_last() =~= seq![c] + s.drop_last());
        assert(cs.last() == s.last());
        lemma_chain_append(c, s.drop_last());
    } else {
        assert(cs.len() == 1 && cs[0] == c);
    }
}

/// A pattern made of letters, digits and spaces alone parses to the
/// left-associated chain of concatenations of its characters, in order.
pub proof fn lemma_parse_literals(s: Seq<char>)
    requires
        forall|i: int| 0 <= i < s.len() ==> is_symbol_char(#[trigger] s[i]),
    ensures
        parse_spec(s) == literal_chain(s),
{
    if s.len() > 0 {
        assert(is_symbol_char(s[0]));
        assert(s.skip(1) =~= s.drop_first());
        lemma_expr_literals(Regex::Symbol(s[0]), s.drop_first());
        lemma_chain_append(s[0], s.drop_first());
        assert(seq![s[0]] + s.drop_first() =~= s);
    }
}

/// Copies the characters of `s` into a vector.
pub(crate) fn chars_of(s: &str) -> (r: Vec<char>)
    ensures
        r@ == s@,
{
    let mut r: Vec<char> = Vec::new();
    for c in it: s.chars()
        invariant
            it.seq() == s@,
            r@ == it.seq().take(it.index() as int),
    {
        r.push(c);
    }
    assert(r@ =~= s@);
    r
}

} // verus!
