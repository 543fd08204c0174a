//! The tokens of grammar text: punctuation, `:=`, quoted strings and identifiers.

use vstd::prelude::*;

verus! {

pub open spec fn is_space(c: char) -> bool {
    c == ' ' || c == '\n' || c == '\t' || c == '\r'
}

pub open spec fn is_punctuation(c: char) -> bool {
    c == '[' || c == ']' || c == '{' || c == '}' || c == '(' || c == ')' || c == '|' || c == ';'
}

pub open spec fn is_quote(c: char) -> bool {
    c == '"' || c == '\''
}

/// A character with which an identifier may begin.
pub open spec fn is_name_start(c: char) -> bool {
    ('a' <= c && c <= 'z') || ('A' <= c && c <= 'Z') || c == '_' || c == '-'
}

/// A character with which an identifier may go on.
pub open spec fn is_name_char(c: char) -> bool {
    is_name_start(c) || ('0' <= c && c <= '9')
}

/// Holds of every character that is no white space.
pub open spec fn non_space() -> spec_fn(char) -> bool {
    |c: char| !is_space(c)
}

/// Holds of every character that cannot stand in an identifier.
pub open spec fn non_name() -> spec_fn(char) -> bool {
    |c: char| !is_name_char(c)
}

/// Holds of the character `c` alone.
pub open spec fn just(c: char) -> spec_fn(char) -> bool {
    |x: char| x == c
}

/// The first place from `i` on where `stop` holds, or the length of `s`.
pub open spec fn scan_until(s: Seq<char>, i: int, stop: spec_fn(char) -> bool) -> int
    decreases s.len() - i,
{
    if 0 <= i < s.len() && !stop(s[i]) {
        scan_until(s, i + 1, stop)
    } else {
        i
    }
}

/// `j` is where a scan from `i` stops when nothing before `j` stops it and `j` does.
pub proof fn lemma_scan_until(s: Seq<char>, i: int, j: int, stop: spec_fn(char) -> bool)
    requires
        0 <= i <= j <= s.len(),
        forall|k: int| i <= k < j ==> !stop(#[trigger] s[k]),
        j == s.len() || stop(s[j]),
    ensures
        scan_until(s, i, stop) == j,
    decreases j - i,
{
    if i < j {
        lemma_scan_until(s, i + 1, j, stop);
    }
}

/// Where a scan stops: not before its start and not behind the text.
pub proof fn lemma_scan_until_bounds(s: Seq<char>, i: int, stop: spec_fn(char) -> bool)
    requires
        0 <= i <= s.len(),
    ensures
        i <= scan_until(s, i, stop) <= s.len(),
    decreases s.len() - i,
{
    if i < s.len() && !stop(s[i]) {
        lemma_scan_until_bounds(s, i + 1, stop);
    }
}

/// The tokens that begin at the first place from `i` on that is neither
/// white space nor comment, and the place behind them. A quoted string
/// gives three tokens: the quote, the text between the quotes as it
/// stands, and the quote again. `None` at the end of the text and before
/// anything that begins no token.
pub open spec fn token_at(s: Seq<char>, i: int) -> Option<(Seq<Seq<char>>, int)>
    decreases s.len() - i,
{
    let j = scan_until(s, i, non_space());
    if !(0 <= i <= j < s.len()) {
        None
    } else if s[j] == '#' {
        let e = scan_until(s, j + 1, just('\n'));
        if j < e < s.len() {
            token_at(s, e + 1)
        } else {
            None
        }
    } else if is_punctuation(s[j]) {
        Some((seq![seq![s[j]]], j + 1))
    } else if s[j] == ':' && j + 1 < s.len() && s[j + 1] == '=' {
        Some((seq![seq![':', '=']], j + 2))
    } else if is_quote(s[j]) && scan_until(s, j + 1, just(s[j])) < s.len() {
        let e = scan_until(s, j + 1, just(s[j]));
        Some((seq![seq![s[j]], s.subrange(j + 1, e), seq![s[j]]], e + 1))
    } else {
        let k = if s[j] == '@' {
            j + 1
        } else {
            j
        };
        if k < s.len() && is_name_start(s[k]) {
            let e = scan_until(s, k + 1, non_name());
            Some((seq![s.subrange(j, e)], e))
        } else {
            None
        }
    }
}

/// Tokens end behind the place where they were looked for, inside the text.
pub proof fn lemma_token_at_advances(s: Seq<char>, i: int)
    ensures
        token_at(s, i) matches Some((_, next)) ==> i < next <= s.len(),
    decreases s.len() - i,
{
    let j = scan_until(s, i, non_space());
    if 0 <= i <= j < s.len() {
        if s[j] == '#' {
            let e = scan_until(s, j + 1, just('\n'));
            if j < e < s.len() {
                lemma_token_at_advances(s, e + 1);
            }
        } else if is_quote(s[j]) {
            lemma_scan_until_bounds(s, j + 1, just(s[j]));
            lemma_scan_until_bounds(s, j + 1, non_name());
            if j + 2 <= s.len() {
                lemma_scan_until_bounds(s, j + 2, non_name());
            }
        } else {
            lemma_scan_until_bounds(s, j + 1, non_name());
            if j + 2 <= s.len() {
                lemma_scan_until_bounds(s, j + 2, non_name());
            }
        }
    }
}

/// All the tokens from place `i` on.
pub open spec fn tokens_from(s: Seq<char>, i: int) -> Seq<Seq<char>>
    decreases s.len() - i,
{
    match token_at(s, i) {
        Some((tokens, next)) => if i < next <= s.len() {
            tokens + tokens_from(s, next)
        } else {
            tokens
        },
        None => Seq::empty(),
    }
}

/// The texts of a stack of strings, the top first.
pub open spec fn stacked(strings: Seq<String>) -> Seq<Seq<char>> {
    Seq::new(strings.len(), |i: int| strings[strings.len() - 1 - i]@)
}

/// Reads grammar text token by token.
pub struct EbnfTokenizer {
    pub source: String,
    pub input: Vec<char>,
    pub pos: usize,
    pub lookahead: Vec<String>,
}

pub fn char_is_space(c: char) -> (r: bool)
    ensures
        r == is_space(c),
{
    c == ' ' || c == '\n' || c == '\t' || c == '\r'
}

pub fn char_is_punctuation(c: char) -> (r: bool)
    ensures
        r == is_punctuation(c),
{
    c == '[' || c == ']' || c == '{' || c == '}' || c == '(' || c == ')' || c == '|' || c == ';'
}

pub fn char_is_name_start(c: char) -> (r: bool)
    ensures
        r == is_name_start(c),
{
    ('a' <= c && c <= 'z') || ('A' <= c && c <= 'Z') || c == '_' || c == '-'
}

pub fn char_is_name_char(c: char) -> (r: bool)
    ensures
        r == is_name_char(c),
{
    char_is_name_start(c) || ('0' <= c && c <= '9')
}

impl EbnfTokenizer {
    pub open spec fn wf(&self) -> bool {
        &&& self.input@ == self.source@
        &&& self.pos <= self.input@.len()
    }

    /// The tokens still to come.
    pub open spec fn rest(&self) -> Seq<Seq<char>> {
        stacked(self.lookahead@) + tokens_from(self.input@, self.pos as int)
    }

    /// A tokenizer at the beginning of `source`.
    pub fn new(source: &str) -> (r: Self)
        ensures
            r.wf(),
            r.rest() == tokens_from(source@, 0),
    {
        let n: usize = source.unicode_len();
        let mut input: Vec<char> = Vec::new();
        let mut i: usize = 0;
        while i < n
            invariant
                i <= n,
                n == source@.len(),
                input@ == source@.take(i as int),
            decreases n - i,
        {
            input.push(source.get_char(i));
            assert(source@.take(i + 1) =~= source@.take(i as int).push(source@[i as int]));
            i += 1;
        }
        assert(source@.take(n as int) =~= source@);
        let r = EbnfTokenizer { source: source.to_owned(), input, pos: 0, lookahead: Vec::new() };
        assert(stacked(r.lookahead@) =~= Seq::empty());
        assert(r.rest() =~= tokens_from(source@, 0));
        r
    }

    /// The text of the source from `from` up to `to`.
    fn text(&self, from: usize, to: usize) -> (r: String)
        requires
            self.wf(),
            from <= to <= self.input@.len(),
        ensures
            r@ == self.input@.subrange(from as int, to as int),
    {
        self.source.as_str().substring_char(from, to).to_owned()
    }

    /// The first place from `from` on that holds `c`, or the length of the text.
    fn find(&self, from: usize, c: char) -> (r: usize)
        requires
            from <= self.input@.len(),
        ensures
            r == scan_until(self.input@, from as int, just(c)),
            from <= r <= self.input@.len(),
            r < self.input@.len() ==> self.input@[r as int] == c,
    {
        let mut e: usize = from;
        while e < self.input.len() && self.input[e] != c
            invariant
                from <= e <= self.input@.len(),
                forall|k: int| from <= k < e ==> self.input@[k] != c,
            decreases self.input.len() - e,
        {
            e += 1;
        }
        proof {
            lemma_scan_until(self.input@, from as int, e as int, just(c));
        }
        e
    }

    /// The next token, if there is one.
    pub fn next(&mut self) -> (r: Option<String>)
        requires
            old(self).wf(),
        ensures
            final(self).wf(),
            final(self).input@ == old(self).input@,
            match r {
                Some(token) => old(self).rest().len() > 0 && token@ == old(self).rest()[0] && final(self).rest()
                    == old(self).rest().drop_first(),
                None => old(self).rest().len() == 0 && final(self).rest().len() == 0,
            },
    {
        if self.lookahead.len() > 0 {
            let ghost before = self.lookahead@;
            let token = self.lookahead.pop().unwrap();
            assert(stacked(self.lookahead@) =~= stacked(before).drop_first());
            assert(self.rest() =~= old(self).rest().drop_first());
            return Some(token);
        }
        assert(stacked(self.lookahead@) =~= Seq::empty());
        assert(self.rest() =~= tokens_from(self.input@, self.pos as int));
        let ghost s = self.input@;
        let n: usize = self.input.len();
        let ghost start = self.pos as int;
        let mut from: usize = self.pos;
        loop
            invariant
                self.wf(),
                self.input@ == s,
                *self == *old(self),
                n == s.len(),
                start <= from <= n,
                self.lookahead@.len() == 0,
                old(self).rest() == tokens_from(s, start),
                tokens_from(s, from as int) == tokens_from(s, start),
            decreases n - from,
        {
            let mut j: usize = from;
            while j < n && char_is_space(self.input[j])
                invariant
                    from <= j <= n,
                    n == s.len(),
                    self.input@ == s,
                    forall|k: int| from <= k < j ==> is_space(#[trigger] s[k]),
                decreases n - j,
            {
                j += 1;
            }
            proof {
                lemma_scan_until(s, from as int, j as int, non_space());
            }
            proof {
                lemma_token_at_advances(s, from as int);
            }
            if j >= n {
                return None;
            }
            let c = self.input[j];
            if c == '#' {
                let e = self.find(j + 1, '\n');
                if e < n {
                    proof {
                        lemma_token_at_advances(s, e + 1);
                        lemma_token_at_advances(s, from as int);
                    }
                    from = e + 1;
                    continue ;
                }
                return None;
            }
            if char_is_punctuation(c) {
                self.pos = j + 1;
                let token = self.text(j, j + 1);
                proof {
                    assert(token@ =~= seq![c]);
                    let tokens = seq![seq![c]];
                    assert((tokens + tokens_from(s, j + 1)).drop_first() =~= tokens_from(s, j + 1));
                    assert(tokens.drop_first() =~= Seq::empty());
                    assert(stacked(self.lookahead@) =~= Seq::empty());
                    assert(self.rest() =~= tokens_from(s, j + 1));
                }
                return Some(token);
            }
            if c == ':' && j + 1 < n && self.input[j + 1] == '=' {
                self.pos = j + 2;
                let token = self.text(j, j + 2);
                proof {
                    assert(token@ =~= seq![':', '=']);
                    let tokens = seq![seq![':', '=']];
                    assert((tokens + tokens_from(s, j + 2)).drop_first() =~= tokens_from(s, j + 2));
                    assert(tokens.drop_first() =~= Seq::empty());
                    assert(stacked(self.lookahead@) =~= Seq::empty());
                    assert(self.rest() =~= tokens_from(s, j + 2));
                }
                return Some(token);
            }
            if c == '"' || c == '\'' {
                let e = self.find(j + 1, c);
                if e < n {
                    let quote = self.text(j, j + 1);
                    let content = self.text(j + 1, e);
                    let closing = self.text(e, e + 1);
                    self.lookahead.push(closing);
                    self.lookahead.push(content);
                    self.pos = e + 1;
                    proof {
                        assert(quote@ =~= seq![c]);
                        assert(closing@ =~= seq![c]);
                        let tokens = seq![seq![c], s.subrange(j + 1, e as int), seq![c]];
                        assert(token_at(s, from as int) == Some((tokens, e + 1)));
                        assert(stacked(self.lookahead@) =~= tokens.drop_first());
                        assert((tokens + tokens_from(s, e + 1)).drop_first() =~= tokens.drop_first() + tokens_from(
                            s,
                            e + 1,
                        ));
                        assert(tokens.drop_first() + Seq::<Seq<char>>::empty() =~= tokens.drop_first());
                    }
                    return Some(quote);
                }
            }
            let k: usize = if c == '@' {
                j + 1
            } else {
                j
            };
            if k < n && char_is_name_start(self.input[k]) {
                let mut e: usize = k + 1;
                while e < n && char_is_name_char(self.input[e])
                    invariant
                        k < e <= n,
                        n == s.len(),
                        self.input@ == s,
                        forall|x: int| k + 1 <= x < e ==> is_name_char(#[trigger] s[x]),
                    decreases n - e,
                {
                    e += 1;
                }
                proof {
                    lemma_scan_until(s, k + 1, e as int, non_name());
                }
                self.pos = e;
                let token = self.text(j, e);
                proof {
                    let tokens = seq![s.subrange(j as int, e as int)];
                    assert(token_at(s, from as int) == Some((tokens, e as int)));
                    assert((tokens + tokens_from(s, e as int)).drop_first() =~= tokens_from(s, e as int));
                    assert(tokens.drop_first() =~= Seq::empty());
                    assert(stacked(self.lookahead@) =~= Seq::empty());
                    assert(self.rest() =~= tokens_from(s, e as int));
                }
                return Some(token);
            }
            return None;
        }
    }

    /// All the tokens of `source`, ready to be read one by one.
    pub fn scanner(source: &str) -> (r: Scanner)
        ensures
            r.pos == 0,
            texts_of(r.buffer@) == tokens_from(source@, 0),
    {
        let mut tokenizer = EbnfTokenizer::new(source);
        let mut buffer: Vec<String> = Vec::new();
        let ghost all = tokens_from(source@, 0);
        assert(texts_of(buffer@) + tokenizer.rest() =~= all);
        loop
            invariant
                tokenizer.wf(),
                all == tokens_from(source@, 0),
                texts_of(buffer@) + tokenizer.rest() == all,
            decreases tokenizer.rest().len(),
        {
            let ghost had = texts_of(buffer@);
            let ghost rest = tokenizer.rest();
            match tokenizer.next() {
                Some(token) => {
                    buffer.push(token);
                    assert(texts_of(buffer@) =~= had.push(rest[0]));
                    assert(texts_of(buffer@) + tokenizer.rest() =~= had + rest);
                },
                None => {
                    assert(rest =~= Seq::empty());
                    assert(had + rest =~= had);
                    assert(texts_of(buffer@) == had);
                    assert(had + rest == all);
                    return Scanner { buffer, pos: 0 };
                },
            }
        }
    }
}

/// The texts of a list of strings.
pub open spec fn texts_of(strings: Seq<String>) -> Seq<Seq<char>> {
    Seq::new(strings.len(), |i: int| strings[i]@)
}

/// A list of tokens with a place in it: tokens can be read, looked at
/// ahead of reading, and given back.
pub struct Scanner {
    pub buffer: Vec<String>,
    pub pos: usize,
}

impl Scanner {
    pub open spec fn wf(&self) -> bool {
        self.pos <= self.buffer@.len()
    }

    /// The token at the place, without moving.
    pub fn peek(&self) -> (r: Option<&String>)
        requires
            self.wf(),
        ensures
            match r {
                Some(token) => self.pos < self.buffer@.len() && *token == self.buffer@[self.pos as int],
                None => self.pos == self.buffer@.len(),
            },
    {
        if self.pos < self.buffer.len() {
            Some(&self.buffer[self.pos])
        } else {
            None
        }
    }

    /// The token at the place; the place moves behind it.
    pub fn next(&mut self) -> (r: Option<String>)
        requires
            old(self).wf(),
        ensures
            final(self).wf(),
            final(self).buffer@ == old(self).buffer@,
            match r {
                Some(token) => old(self).pos < old(self).buffer@.len() && token@ == old(self).buffer@[old(
                    self,
                ).pos as int]@ && final(self).pos == old(self).pos + 1,
                None => old(self).pos == old(self).buffer@.len() && final(self).pos == old(self).pos,
            },
    {
        if self.pos < self.buffer.len() {
            let token = self.buffer[self.pos].clone();
            self.pos = self.pos + 1;
            Some(token)
        } else {
            None
        }
    }

    /// Gives the last token back, if one was read.
    pub fn prev(&mut self)
        requires
            old(self).wf(),
        ensures
            final(self).wf(),
            final(self).buffer@ == old(self).buffer@,
            final(self).pos == if old(self).pos > 0 {
                old(self).pos - 1
            } else {
                0
            },
    {
        if self.pos > 0 {
            self.pos = self.pos - 1;
        }
    }
}

} // verus!
