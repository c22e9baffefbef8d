//! Patterns that stand for many image names, such as `0/\a\a`, and the names
//! they stand for.
//!
//! A pattern is read as a sequence of tokens: `\_`, `\x`, `\a`, `\d` and `\m`
//! stand for one of a set of characters or numbers, `(abc)` for one of the
//! characters between the parentheses, and any other character (but a line
//! break) for itself. Reading stops at a line break that no token covers.

use vstd::prelude::*;
use crate::images::{decimal, decimal_chars, string_views};
use crate::text::{chars_of, copy_chars, push_all, string_of, views};

verus! {

/// The kinds of token of a pattern.
#[derive(Clone, Copy, Debug, PartialEq, Eq)]
pub enum Token {
    /// `\_`: one of `a`-`z`, `0`-`9` and `_`.
    All,
    /// `\x`: one of `a`-`z` and `0`-`9`.
    AlphaNumeric,
    /// `\a`: one of `a`-`z`.
    Alphabetic,
    /// `\d`: one of `0`-`9`.
    Numeric,
    /// `\m`: one of the numbers 0 to 100, or 1000.
    Mails,
    /// `(abc)`: one of the characters between the parentheses.
    Specific,
    /// Any other character: itself.
    Text,
}

/// The token that a backslash and `c` make, if any.
pub open spec fn escape_token(c: char) -> Option<Token> {
    if c == '_' {
        Some(Token::All)
    } else if c == 'x' {
        Some(Token::AlphaNumeric)
    } else if c == 'a' {
        Some(Token::Alphabetic)
    } else if c == 'd' {
        Some(Token::Numeric)
    } else if c == 'm' {
        Some(Token::Mails)
    } else {
        None
    }
}

/// The index of the first `c` in `s`, or -1 when there is none.
pub open spec fn first_index_of(s: Seq<char>, c: char) -> int
    decreases s.len(),
{
    if s.len() == 0 {
        -1
    } else if s[0] == c {
        0
    } else {
        let r = first_index_of(s.drop_first(), c);
        if r < 0 {
            -1
        } else {
            r + 1
        }
    }
}

/// The token at the start of the non-empty `s` and its length: the longest
/// of the tokens that match there; none at a line break that no token covers.
pub open spec fn next_token(s: Seq<char>) -> Option<(Token, int)> {
    let close = first_index_of(s, ')');
    if s.len() >= 2 && s[0] == '\\' && escape_token(s[1]) is Some {
        Some((escape_token(s[1]).unwrap(), 2))
    } else if s.len() >= 1 && s[0] == '(' && close >= 2 {
        Some((Token::Specific, close + 1))
    } else if s.len() >= 1 && s[0] != '\n' {
        Some((Token::Text, 1))
    } else {
        None
    }
}

/// The tokens of a pattern, each with its text, up to the first place where
/// no token matches.
pub open spec fn lexed(s: Seq<char>) -> Seq<(Token, Seq<char>)>
    decreases s.len(),
{
    if s.len() == 0 {
        Seq::empty()
    } else {
        match next_token(s) {
            None => Seq::empty(),
            Some((t, n)) => if 1 <= n <= s.len() {
                seq![(t, s.take(n))] + lexed(s.skip(n))
            } else {
                Seq::empty()
            },
        }
    }
}

proof fn lemma_first_index_of(s: Seq<char>, c: char)
    ensures
        -1 <= first_index_of(s, c) < s.len(),
        first_index_of(s, c) >= 0 ==> s[first_index_of(s, c)] == c,
        forall|j: int| 0 <= j < s.len() && (first_index_of(s, c) < 0 || j < first_index_of(s, c)) ==> s[j] != c,
    decreases s.len(),
{
    if s.len() > 0 && s[0] != c {
        let t = s.drop_first();
        lemma_first_index_of(t, c);
        assert forall|j: int| 0 <= j < s.len() && (first_index_of(s, c) < 0 || j < first_index_of(s, c)) implies s[j] != c by {
            if j > 0 {
                assert(s[j] == t[j - 1]);
            }
        }
        if first_index_of(s, c) >= 0 {
            assert(s[first_index_of(s, c)] == t[first_index_of(t, c)]);
        }
    }
}

proof fn lemma_first_index_of_skip(s: Seq<char>, c: char, i: int, k: int)
    requires
        0 <= i <= k <= s.len(),
        forall|j: int| i <= j < k ==> s[j] != c,
        k == s.len() || s[k] == c,
    ensures
        first_index_of(s.skip(i), c) == (if k == s.len() { -1 } else { k - i }),
    decreases k - i,
{
    let t = s.skip(i);
    if i == k {
        if k < s.len() {
            assert(t[0] == s[k]);
        }
    } else {
        assert(t[0] == s[i]);
        lemma_first_index_of_skip(s, c, i + 1, k);
        assert(t.drop_first() =~= s.skip(i + 1));
    }
}

/// The token that starts at index `i` of `s`, and its length.
pub fn next_token_at(s: &Vec<char>, i: usize) -> (r: Option<(Token, usize)>)
    requires
        i < s.len(),
    ensures
        match r {
            Some((t, n)) => next_token(s@.skip(i as int)) == Some((t, n as int)),
            None => next_token(s@.skip(i as int)) is None,
        },
{
    let ghost t = s@.skip(i as int);
    assert(t[0] == s@[i as int]);
    if i + 1 < s.len() && s[i] == '\\' {
        assert(t[1] == s@[i + 1]);
        let c = s[i + 1];
        let tok = if c == '_' {
            Some(Token::All)
        } else if c == 'x' {
            Some(Token::AlphaNumeric)
        } else if c == 'a' {
            Some(Token::Alphabetic)
        } else if c == 'd' {
            Some(Token::Numeric)
        } else if c == 'm' {
            Some(Token::Mails)
        } else {
            None
        };
        assert(tok == escape_token(c));
        if let Some(tk) = tok {
            return Some((tk, 2));
        }
    }
    if s[i] == '(' {
        let mut j: usize = i + 1;
        while j < s.len() && s[j] != ')'
            invariant
                i < j <= s.len(),
                s@[i as int] == '(',
                forall|m: int| i <= m < j ==> s@[m] != ')',
            decreases s.len() - j,
        {
            j += 1;
        }
        proof {
            lemma_first_index_of_skip(s@, ')', i as int, j as int);
        }
        if j < s.len() && j >= i + 2 {
            return Some((Token::Specific, j - i + 1));
        }
    }
    if s[i] != '\n' {
        Some((Token::Text, 1))
    } else {
        None
    }
}

/// The views of tokens with their texts.
pub open spec fn token_views(v: Seq<(Token, String)>) -> Seq<(Token, Seq<char>)> {
    v.map_values(|p: (Token, String)| (p.0, p.1@))
}

/// The tokens of a pattern with their texts (see `lexed`).
pub fn lex(input: &str) -> (r: Vec<(Token, String)>)
    ensures
        token_views(r@) == lexed(input@),
{
    let s = chars_of(input);
    let mut r: Vec<(Token, String)> = Vec::new();
    let mut i: usize = 0;
    assert(s@.skip(0) =~= s@);
    while i < s.len()
        invariant
            i <= s.len(),
            s@ == input@,
            lexed(s@) == token_views(r@) + lexed(s@.skip(i as int)),
        decreases s.len() - i,
    {
        let ghost rest = s@.skip(i as int);
        match next_token_at(&s, i) {
            None => {
                assert(lexed(rest) =~= Seq::<(Token, Seq<char>)>::empty());
                assert(token_views(r@) + lexed(rest) =~= token_views(r@));
                return r;
            },
            Some((tk, n)) => {
                proof {
                    lemma_first_index_of(rest, ')');
                }
                assert(1 <= n <= rest.len());
                let text = crate::paths::slice_chars(&s, i, i + n);
                assert(text@ =~= rest.take(n as int));
                assert(rest.skip(n as int) =~= s@.skip(i + n));
                let ghost before = token_views(r@);
                let ghost entry = (tk, text@);
                r.push((tk, string_of(&text)));
                assert(token_views(r@) =~= before.push(entry));
                assert(lexed(rest) == seq![entry] + lexed(s@.skip(i + n)));
                assert(before + lexed(rest) =~= token_views(r@) + lexed(s@.skip(i + n)));
                i += n;
            },
        }
    }
    assert(lexed(s@.skip(i as int)) =~= Seq::<(Token, Seq<char>)>::empty());
    assert(token_views(r@) + Seq::<(Token, Seq<char>)>::empty() =~= token_views(r@));
    r
}

/// Each character of `cs` as a text of its own.
pub open spec fn singles(cs: Seq<char>) -> Seq<Seq<char>> {
    cs.map_values(|c: char| seq![c])
}

/// The letters, in the order that patterns try them.
pub open spec fn letters() -> Seq<char> {
    "abcdefghijklmnopqrstuvwxzy"@
}

/// The digits, in the order that patterns try them.
pub open spec fn digits() -> Seq<char> {
    "0123456789"@
}

/// The numbers that `\m` tries: 0 to 100, then 1000.
pub open spec fn mail_numbers() -> Seq<Seq<char>> {
    Seq::new(101, |i: int| decimal(i as nat)).push(decimal(1000))
}

/// The texts that a token with text `text` stands for, in the order tried.
pub open spec fn choices(t: Token, text: Seq<char>) -> Seq<Seq<char>> {
    match t {
        Token::All => singles(letters() + digits() + seq!['_']),
        Token::AlphaNumeric => singles(letters() + digits()),
        Token::Alphabetic => singles(letters()),
        Token::Numeric => singles(digits()),
        Token::Mails => mail_numbers(),
        Token::Specific => singles(text.subrange(1, text.len() - 1)),
        Token::Text => singles(text),
    }
}

/// The choices of each token of a sequence.
pub open spec fn token_choices(tokens: Seq<(Token, Seq<char>)>) -> Seq<Seq<Seq<char>>> {
    tokens.map_values(|p: (Token, Seq<char>)| choices(p.0, p.1))
}

/// All texts made of `base` followed by one choice of each position of
/// `opts`, the first position varying slowest; just `base` when nothing
/// would come out.
pub open spec fn expand(opts: Seq<Seq<Seq<char>>>, base: Seq<char>) -> Seq<Seq<char>>
    decreases opts.len(), 0nat,
{
    if opts.len() == 0 {
        seq![base]
    } else {
        let out = expand_each(opts[0], opts.skip(1), base);
        if out.len() == 0 {
            seq![base]
        } else {
            out
        }
    }
}

/// For each of `cs` in turn, the expansions of `rest` after `base` and it.
pub open spec fn expand_each(cs: Seq<Seq<char>>, rest: Seq<Seq<Seq<char>>>, base: Seq<char>) -> Seq<
    Seq<char>,
>
    decreases rest.len(), cs.len() + 1,
{
    if cs.len() == 0 {
        Seq::empty()
    } else {
        expand_each(cs.drop_last(), rest, base) + expand(rest, base + cs.last())
    }
}

/// Each character of `cs` as a vector of its own.
fn singles_vec(cs: &Vec<char>) -> (r: Vec<Vec<char>>)
    ensures
        views(r@) == singles(cs@),
{
    let mut r: Vec<Vec<char>> = Vec::new();
    let mut i: usize = 0;
    while i < cs.len()
        invariant
            i <= cs.len(),
            views(r@) == singles(cs@.take(i as int)),
        decreases cs.len() - i,
    {
        let one = vec![cs[i]];
        assert(one@ =~= seq![cs@[i as int]]);
        let ghost before = views(r@);
        r.push(one);
        assert(views(r@) =~= before.push(seq![cs@[i as int]]));
        assert(cs@.take(i + 1) =~= cs@.take(i as int).push(cs@[i as int]));
        i += 1;
        assert(views(r@) =~= singles(cs@.take(i as int)));
    }
    assert(cs@.take(i as int) =~= cs@);
    r
}

/// The choices of a token with text `text`.
pub fn token_choices_of(t: Token, text: &Vec<char>) -> (r: Vec<Vec<char>>)
    requires
        t is Specific ==> text@.len() >= 2,
    ensures
        views(r@) == choices(t, text@),
{
    match t {
        Token::All => {
            let mut cs = chars_of("abcdefghijklmnopqrstuvwxzy");
            push_all(&mut cs, &chars_of("0123456789"));
            cs.push('_');
            singles_vec(&cs)
        },
        Token::AlphaNumeric => {
            let mut cs = chars_of("abcdefghijklmnopqrstuvwxzy");
            push_all(&mut cs, &chars_of("0123456789"));
            singles_vec(&cs)
        },
        Token::Alphabetic => singles_vec(&chars_of("abcdefghijklmnopqrstuvwxzy")),
        Token::Numeric => singles_vec(&chars_of("0123456789")),
        Token::Mails => {
            let mut r: Vec<Vec<char>> = Vec::new();
            let mut n: u32 = 0;
            while n <= 100
                invariant
                    n <= 101,
                    views(r@) == Seq::new(n as nat, |i: int| decimal(i as nat)),
                decreases 101 - n,
            {
                let d = decimal_chars(n);
                let ghost before = views(r@);
                let ghost dv = d@;
                r.push(d);
                assert(views(r@) =~= before.push(dv));
                n += 1;
                assert(views(r@) =~= Seq::new(n as nat, |i: int| decimal(i as nat)));
            }
            r.push(decimal_chars(1000));
            assert(views(r@) =~= mail_numbers());
            r
        },
        Token::Specific => {
            let inner = crate::paths::slice_chars(text, 1, text.len() - 1);
            singles_vec(&inner)
        },
        Token::Text => singles_vec(text),
    }
}

/// Appends the expansions of `opts[k..]` after `base` to `out`.
fn expand_into(opts: &Vec<Vec<Vec<char>>>, k: usize, base: &Vec<char>, out: &mut Vec<Vec<char>>)
    requires
        k <= opts.len(),
    ensures
        views(final(out)@) == views(old(out)@) + expand(
            opts@.map_values(|o: Vec<Vec<char>>| views(o@)).skip(k as int),
            base@,
        ),
    decreases opts.len() - k,
{
    let ghost all = opts@.map_values(|o: Vec<Vec<char>>| views(o@));
    let ghost rest = all.skip(k as int);
    if k == opts.len() {
        out.push(copy_chars(base));
        assert(rest.len() == 0);
        assert(views(out@) =~= views(old(out)@) + seq![base@]);
        return;
    }
    let cs = &opts[k];
    assert(rest[0] == views(cs@));
    assert(rest.skip(1) =~= all.skip(k + 1));
    let start = out.len();
    let mut j: usize = 0;
    assert(views(cs@).take(0) =~= Seq::<Seq<char>>::empty());
    while j < cs.len()
        invariant
            j <= cs.len(),
            k < opts.len(),
            cs == opts@[k as int],
            all == opts@.map_values(|o: Vec<Vec<char>>| views(o@)),
            start == old(out)@.len(),
            views(out@) == views(old(out)@) + expand_each(views(cs@).take(j as int), all.skip(k + 1), base@),
        decreases cs.len() - j,
    {
        let mut next = copy_chars(base);
        push_all(&mut next, &cs[j]);
        let ghost before = views(out@);
        expand_into(opts, k + 1, &next, out);
        assert(views(cs@).take(j + 1).drop_last() =~= views(cs@).take(j as int));
        assert(views(cs@).take(j + 1).last() == cs@[j as int]@);
        j += 1;
        assert(views(out@) =~= views(old(out)@) + expand_each(views(cs@).take(j as int), all.skip(k + 1), base@));
    }
    assert(views(cs@).take(j as int) =~= views(cs@));
    proof {
        lemma_expand_each_len_zero(views(cs@), all.skip(k + 1), base@);
    }
    if out.len() == start {
        out.push(copy_chars(base));
        assert(views(out@) =~= views(old(out)@) + seq![base@]);
    } else {
        assert(views(out@).len() == views(old(out)@).len() + expand_each(views(cs@), all.skip(k + 1), base@).len());
    }
}

proof fn lemma_expand_each_len_zero(cs: Seq<Seq<char>>, rest: Seq<Seq<Seq<char>>>, base: Seq<char>)
    ensures
        expand_each(cs, rest, base).len() == 0 <==> cs.len() == 0,
    decreases cs.len(),
{
    if cs.len() > 0 {
        lemma_expand_each_len_zero(cs.drop_last(), rest, base);
        lemma_expand_len_pos(rest, base + cs.last());
    }
}

proof fn lemma_expand_len_pos(opts: Seq<Seq<Seq<char>>>, base: Seq<char>)
    ensures
        expand(opts, base).len() > 0,
{
}

/// The names that a pattern stands for: one for each choice of each of its
/// tokens, the first token varying slowest (see `expand`).
pub fn bruteforce_candidates(input: &str) -> (r: Vec<String>)
    ensures
        string_views(r@) == expand(token_choices(lexed(input@)), Seq::empty()),
{
    let tokens = lex(input);
    let ghost tv = token_views(tokens@);
    let mut opts: Vec<Vec<Vec<char>>> = Vec::new();
    let mut i: usize = 0;
    proof {
        lemma_lexed_shapes(input@);
    }
    while i < tokens.len()
        invariant
            i <= tokens.len(),
            tv == token_views(tokens@),
            tv == lexed(input@),
            forall|m: int| 0 <= m < tv.len() && tv[m].0 is Specific ==> tv[m].1.len() >= 2,
            opts@.map_values(|o: Vec<Vec<char>>| views(o@)) == token_choices(tv.take(i as int)),
        decreases tokens.len() - i,
    {
        let text = chars_of(tokens[i].1.as_str());
        assert(tv[i as int] == (tokens@[i as int].0, tokens@[i as int].1@));
        let cs = token_choices_of(tokens[i].0, &text);
        let ghost before = opts@.map_values(|o: Vec<Vec<char>>| views(o@));
        let ghost cv = views(cs@);
        opts.push(cs);
        assert(opts@.map_values(|o: Vec<Vec<char>>| views(o@)) =~= before.push(cv));
        assert(tv.take(i + 1) =~= tv.take(i as int).push(tv[i as int]));
        i += 1;
        assert(opts@.map_values(|o: Vec<Vec<char>>| views(o@)) =~= token_choices(tv.take(i as int)));
    }
    assert(tv.take(i as int) =~= tv);
    let mut out: Vec<Vec<char>> = Vec::new();
    let base: Vec<char> = Vec::new();
    assert(base@ =~= Seq::<char>::empty());
    expand_into(&opts, 0, &base, &mut out);
    assert(opts@.map_values(|o: Vec<Vec<char>>| views(o@)).skip(0) =~= opts@.map_values(|o: Vec<Vec<char>>| views(o@)));
    assert(views(out@) =~= expand(token_choices(lexed(input@)), Seq::empty()));
    let mut r: Vec<String> = Vec::new();
    let mut k: usize = 0;
    while k < out.len()
        invariant
            k <= out.len(),
            string_views(r@) == views(out@).take(k as int),
        decreases out.len() - k,
    {
        let t = string_of(&out[k]);
        let ghost before = string_views(r@);
        let ghost tv2 = t@;
        r.push(t);
        assert(string_views(r@) =~= before.push(tv2));
        k += 1;
        assert(string_views(r@) =~= views(out@).take(k as int));
    }
    assert(views(out@).take(k as int) =~= views(out@));
    r
}

/// The texts of tokens, one after the other.
pub open spec fn token_texts(tokens: Seq<(Token, Seq<char>)>) -> Seq<char>
    decreases tokens.len(),
{
    if tokens.len() == 0 {
        Seq::empty()
    } else {
        tokens[0].1 + token_texts(tokens.drop_first())
    }
}

/// Law: a pattern without a line break is read whole: the texts of its
/// tokens, one after the other, give the pattern back.
pub proof fn law_lexed_covers_input(s: Seq<char>)
    requires
        forall|i: int| 0 <= i < s.len() ==> s[i] != '\n',
    ensures
        token_texts(lexed(s)) == s,
    decreases s.len(),
{
    if s.len() == 0 {
        assert(lexed(s) =~= Seq::<(Token, Seq<char>)>::empty());
        assert(s =~= Seq::<char>::empty());
    } else {
        lemma_first_index_of(s, ')');
        let (t, n) = next_token(s).unwrap();
        assert(1 <= n <= s.len());
        let rest = s.skip(n);
        assert forall|i: int| 0 <= i < rest.len() implies rest[i] != '\n' by {
            assert(rest[i] == s[i + n]);
        }
        law_lexed_covers_input(rest);
        let l = lexed(s);
        assert(l == seq![(t, s.take(n))] + lexed(rest));
        assert(l.drop_first() =~= lexed(rest));
        assert(s.take(n) + rest =~= s);
    }
}

/// The product of the numbers of choices of the positions of `opts`.
pub open spec fn choice_product(opts: Seq<Seq<Seq<char>>>) -> nat
    decreases opts.len(),
{
    if opts.len() == 0 {
        1
    } else {
        opts[0].len() * choice_product(opts.skip(1))
    }
}

proof fn lemma_expand_count(opts: Seq<Seq<Seq<char>>>, base: Seq<char>)
    requires
        forall|i: int| 0 <= i < opts.len() ==> (#[trigger] opts[i]).len() > 0,
    ensures
        expand(opts, base).len() == choice_product(opts),
        choice_product(opts) > 0,
    decreases opts.len(), 0nat,
{
    if opts.len() > 0 {
        let rest = opts.skip(1);
        assert forall|i: int| 0 <= i < rest.len() implies (#[trigger] rest[i]).len() > 0 by {
            assert(rest[i] == opts[i + 1]);
        }
        lemma_expand_each_count(opts[0], rest, base);
        assert(opts[0].len() > 0);
        let p = choice_product(rest);
        assert(opts[0].len() * p > 0) by (nonlinear_arith)
            requires
                opts[0].len() > 0,
                p > 0,
        ;
    }
}

proof fn lemma_expand_each_count(cs: Seq<Seq<char>>, rest: Seq<Seq<Seq<char>>>, base: Seq<char>)
    requires
        forall|i: int| 0 <= i < rest.len() ==> (#[trigger] rest[i]).len() > 0,
    ensures
        expand_each(cs, rest, base).len() == cs.len() * choice_product(rest),
        choice_product(rest) > 0,
    decreases rest.len(), cs.len() + 1,
{
    lemma_expand_count(rest, base);
    if cs.len() > 0 {
        lemma_expand_each_count(cs.drop_last(), rest, base);
        lemma_expand_count(rest, base + cs.last());
        let p = choice_product(rest);
        let k = cs.drop_last().len();
        assert(k * p + p == (k + 1) * p) by (nonlinear_arith);
    }
}

proof fn lemma_choices_nonempty(t: Token, text: Seq<char>)
    requires
        t is Specific ==> text.len() >= 3,
        t is Text ==> text.len() >= 1,
    ensures
        choices(t, text).len() > 0,
{
    reveal_strlit("abcdefghijklmnopqrstuvwxzy");
    reveal_strlit("0123456789");
}

/// Law: a pattern stands for as many names as the product of the numbers
/// of choices of its tokens, each token offering at least one.
pub proof fn law_candidate_count(s: Seq<char>)
    ensures
        expand(token_choices(lexed(s)), Seq::empty()).len() == choice_product(token_choices(lexed(s))),
        forall|i: int| 0 <= i < token_choices(lexed(s)).len() ==> (#[trigger] token_choices(lexed(s))[i]).len() > 0,
{
    lemma_lexed_shapes(s);
    let opts = token_choices(lexed(s));
    assert forall|i: int| 0 <= i < opts.len() implies (#[trigger] opts[i]).len() > 0 by {
        lemma_choices_nonempty(lexed(s)[i].0, lexed(s)[i].1);
    }
    lemma_expand_count(opts, Seq::empty());
}

/// The text of a `Specific` token has at least three characters, that of a
/// `Text` token one.
proof fn lemma_lexed_shapes(s: Seq<char>)
    ensures
        forall|m: int| 0 <= m < lexed(s).len() ==> {
            &&& (lexed(s)[m].0 is Specific ==> lexed(s)[m].1.len() >= 3)
            &&& (lexed(s)[m].0 is Text ==> lexed(s)[m].1.len() >= 1)
        },
    decreases s.len(),
{
    if s.len() > 0 {
        match next_token(s) {
            None => {},
            Some((t, n)) => {
                if 1 <= n <= s.len() {
                    lemma_lexed_shapes(s.skip(n));
                    let l = lexed(s);
                    assert forall|m: int| 0 <= m < l.len() implies {
                        &&& (l[m].0 is Specific ==> l[m].1.len() >= 3)
                        &&& (l[m].0 is Text ==> l[m].1.len() >= 1)
                    } by {
                        if m == 0 {
                            lemma_first_index_of(s, ')');
                        } else {
                            assert(l[m] == lexed(s.skip(n))[m - 1]);
                        }
                    }
                }
            },
        }
    }
}

/// A pattern text without `'\\'`, `'('` or line breaks.
pub open spec fn plain_pattern(pre: Seq<char>) -> bool {
    forall|i: int| 0 <= i < pre.len() ==> pre[i] != '\\' && pre[i] != '(' && pre[i] != '\n'
}

/// The text tokens of the characters of `pre`, one each.
pub open spec fn text_tokens(pre: Seq<char>) -> Seq<(Token, Seq<char>)> {
    pre.map_values(|c: char| (Token::Text, seq![c]))
}

/// A plain text before the rest of a pattern is read as one text token per
/// character.
proof fn lemma_lexed_plain(pre: Seq<char>, tail: Seq<char>)
    requires
        plain_pattern(pre),
    ensures
        lexed(pre + tail) == text_tokens(pre) + lexed(tail),
    decreases pre.len(),
{
    if pre.len() == 0 {
        assert(pre + tail =~= tail);
        assert(text_tokens(pre) + lexed(tail) =~= lexed(tail));
    } else {
        let s = pre + tail;
        assert(s[0] == pre[0]);
        assert(next_token(s) == Some((Token::Text, 1int)));
        assert(s.take(1) =~= seq![pre[0]]);
        assert(s.skip(1) =~= pre.drop_first() + tail);
        lemma_lexed_plain(pre.drop_first(), tail);
        assert(text_tokens(pre) =~= seq![(Token::Text, seq![pre[0]])] + text_tokens(pre.drop_first()));
        assert(lexed(s) =~= text_tokens(pre) + lexed(tail));
    }
}

/// A backslash and the letter of an escape are read as that one token.
proof fn lemma_lexed_escape(c: char)
    requires
        escape_token(c) is Some,
    ensures
        lexed(seq!['\\', c]) == seq![(escape_token(c).unwrap(), seq!['\\', c])],
{
    let s = seq!['\\', c];
    assert(s[0] == '\\' && s[1] == c && s.len() == 2);
    assert(next_token(s) == Some((escape_token(c).unwrap(), 2int)));
    assert(s.take(2) =~= s);
    assert(lexed(s.skip(2)) == Seq::<(Token, Seq<char>)>::empty());
    assert(s.skip(2) =~= Seq::<char>::empty());
    assert(seq![(escape_token(c).unwrap(), s)] + Seq::<(Token, Seq<char>)>::empty() =~= seq![
        (escape_token(c).unwrap(), s),
    ]);
}

/// Positions with a single choice each only add their characters to the
/// base.
proof fn lemma_expand_text_first(pre: Seq<char>, rest: Seq<Seq<Seq<char>>>, base: Seq<char>)
    ensures
        expand(token_choices(text_tokens(pre)) + rest, base) == expand(rest, base + pre),
    decreases pre.len(),
{
    let opts = token_choices(text_tokens(pre)) + rest;
    if pre.len() == 0 {
        assert(opts =~= rest);
        assert(base + pre =~= base);
    } else {
        let c = pre[0];
        let r = token_choices(text_tokens(pre.drop_first())) + rest;
        assert(opts[0] == choices(Token::Text, seq![c]));
        assert(singles(seq![c]) =~= seq![seq![c]]);
        assert(opts[0] =~= seq![seq![c]]);
        assert(opts.skip(1) =~= r);
        let one = seq![seq![c]];
        assert(one.drop_last() =~= Seq::<Seq<char>>::empty());
        assert(expand_each(one.drop_last(), r, base) =~= Seq::<Seq<char>>::empty());
        lemma_expand_len_pos(r, base + seq![c]);
        assert(expand_each(one, r, base) =~= expand(r, base + seq![c]));
        lemma_expand_text_first(pre.drop_first(), rest, base + seq![c]);
        assert(base + seq![c] + pre.drop_first() =~= base + pre);
    }
}

/// The expansions of one last position: the base followed by each choice.
proof fn lemma_expand_each_last(cs: Seq<Seq<char>>, base: Seq<char>)
    ensures
        expand_each(cs, Seq::empty(), base) == cs.map_values(|x: Seq<char>| base + x),
    decreases cs.len(),
{
    if cs.len() > 0 {
        lemma_expand_each_last(cs.drop_last(), base);
        assert(expand(Seq::<Seq<Seq<char>>>::empty(), base + cs.last()) == seq![base + cs.last()]);
        assert(cs.map_values(|x: Seq<char>| base + x) =~= cs.drop_last().map_values(|x: Seq<char>| base + x)
            + seq![base + cs.last()]);
    } else {
        assert(cs.map_values(|x: Seq<char>| base + x) =~= Seq::<Seq<char>>::empty());
    }
}

/// The names of a plain text followed by one escape: the text followed by
/// each choice of the escape.
proof fn lemma_pattern_with_escape(pre: Seq<char>, c: char)
    requires
        plain_pattern(pre),
        escape_token(c) is Some,
    ensures
        expand(token_choices(lexed(pre + seq!['\\', c])), Seq::empty()) == choices(
            escape_token(c).unwrap(),
            seq!['\\', c],
        ).map_values(|x: Seq<char>| pre + x),
{
    let t = escape_token(c).unwrap();
    lemma_lexed_plain(pre, seq!['\\', c]);
    lemma_lexed_escape(c);
    let toks = text_tokens(pre) + seq![(t, seq!['\\', c])];
    assert(token_choices(toks) =~= token_choices(text_tokens(pre)) + seq![choices(t, seq!['\\', c])]);
    lemma_expand_text_first(pre, seq![choices(t, seq!['\\', c])], Seq::empty());
    assert(Seq::<char>::empty() + pre =~= pre);
    let cs = choices(t, seq!['\\', c]);
    lemma_choices_nonempty(t, seq!['\\', c]);
    assert(seq![cs].skip(1) =~= Seq::<Seq<Seq<char>>>::empty());
    lemma_expand_each_last(cs, pre);
}

/// Each character of `cs` after `pre`.
proof fn lemma_singles_after(pre: Seq<char>, cs: Seq<char>)
    ensures
        singles(cs).map_values(|x: Seq<char>| pre + x) == cs.map_values(|c: char| pre.push(c)),
{
    let a = singles(cs).map_values(|x: Seq<char>| pre + x);
    let b = cs.map_values(|c: char| pre.push(c));
    assert forall|i: int| 0 <= i < cs.len() implies #[trigger] a[i] == b[i] by {
        assert(pre + seq![cs[i]] =~= pre.push(cs[i]));
    }
    assert(a =~= b);
}

/// Law: a plain text `pre` followed by an escape stands for `pre` followed
/// by each character (or number) of the escape, in this order: `\d` the
/// digits `0` to `9`; `\a` the letters `a` to `z` (with `z` before `y`);
/// `\x` those letters, then the digits; `\_` those, then `'_'`; `\m` the
/// numbers 0 to 100, then 1000.
pub proof fn law_escape_candidates(pre: Seq<char>)
    requires
        plain_pattern(pre),
    ensures
        expand(token_choices(lexed(pre + seq!['\\', 'd'])), Seq::empty())
            == seq!['0', '1', '2', '3', '4', '5', '6', '7', '8', '9'].map_values(|c: char| pre.push(c)),
        expand(token_choices(lexed(pre + seq!['\\', 'a'])), Seq::empty())
            == "abcdefghijklmnopqrstuvwxzy"@.map_values(|c: char| pre.push(c)),
        expand(token_choices(lexed(pre + seq!['\\', 'x'])), Seq::empty())
            == "abcdefghijklmnopqrstuvwxzy0123456789"@.map_values(|c: char| pre.push(c)),
        expand(token_choices(lexed(pre + seq!['\\', '_'])), Seq::empty())
            == "abcdefghijklmnopqrstuvwxzy0123456789_"@.map_values(|c: char| pre.push(c)),
        expand(token_choices(lexed(pre + seq!['\\', 'm'])), Seq::empty()) == Seq::new(
            101,
            |i: int| pre + decimal(i as nat),
        ).push(pre + seq!['1', '0', '0', '0']),
{
    reveal_strlit("abcdefghijklmnopqrstuvwxzy");
    reveal_strlit("0123456789");
    reveal_strlit("abcdefghijklmnopqrstuvwxzy0123456789");
    reveal_strlit("abcdefghijklmnopqrstuvwxzy0123456789_");
    lemma_pattern_with_escape(pre, 'd');
    lemma_singles_after(pre, digits());
    assert(digits() =~= seq!['0', '1', '2', '3', '4', '5', '6', '7', '8', '9']);
    lemma_pattern_with_escape(pre, 'a');
    lemma_singles_after(pre, letters());
    lemma_pattern_with_escape(pre, 'x');
    lemma_singles_after(pre, letters() + digits());
    assert(letters() + digits() =~= "abcdefghijklmnopqrstuvwxzy0123456789"@);
    lemma_pattern_with_escape(pre, '_');
    lemma_singles_after(pre, letters() + digits() + seq!['_']);
    assert(letters() + digits() + seq!['_'] =~= "abcdefghijklmnopqrstuvwxzy0123456789_"@);
    lemma_pattern_with_escape(pre, 'm');
    assert(decimal(1000) =~= seq!['1', '0', '0', '0']) by {
        reveal_with_fuel(decimal, 4);
    }
    assert(mail_numbers().map_values(|x: Seq<char>| pre + x) =~= Seq::new(101, |i: int| pre + decimal(i as nat)).push(
        pre + seq!['1', '0', '0', '0'],
    ));
}

} // verus!
