//! The grammar of one adjacency row: node numbers separated by white space.

use vstd::prelude::*;
use vstd::std_specs::iter::IteratorSpec;

verus! {

/// The characters that separate tokens: those with the Unicode property
/// `White_Space`.
pub open spec fn white_space(c: char) -> bool {
    let u = c as u32;
    ||| 0x09 <= u <= 0x0D
    ||| u == 0x20
    ||| u == 0x85
    ||| u == 0xA0
    ||| u == 0x1680
    ||| 0x2000 <= u <= 0x200A
    ||| u == 0x2028
    ||| u == 0x2029
    ||| u == 0x202F
    ||| u == 0x205F
    ||| u == 0x3000
}

/// The ASCII digits.
pub open spec fn is_digit(c: char) -> bool {
    0x30 <= c as u32 <= 0x39
}

/// What a digit counts for.
pub open spec fn digit_value(c: char) -> nat {
    (c as u32 - 0x30) as nat
}

/// Every character of `s` is a digit.
pub open spec fn all_digits(s: Seq<char>) -> bool {
    forall|i: int| 0 <= i < s.len() ==> is_digit(#[trigger] s[i])
}

/// The number that a run of digits writes in base ten.
pub open spec fn decimal_value(s: Seq<char>) -> nat
    decreases s.len(),
{
    if s.len() == 0 {
        0
    } else {
        decimal_value(s.drop_last()) * 10 + digit_value(s.last())
    }
}

/// A token without its optional leading `+`.
pub open spec fn unsigned_part(token: Seq<char>) -> Seq<char> {
    if token.len() > 0 && token[0] == '+' {
        token.skip(1)
    } else {
        token
    }
}

/// The node that a token names: an optional `+`, then at least one digit and
/// nothing but digits, and a value that a `usize` holds.
pub open spec fn token_node(token: Seq<char>) -> Option<usize> {
    let body = unsigned_part(token);
    if body.len() > 0 && all_digits(body) && decimal_value(body) <= usize::MAX {
        Some(decimal_value(body) as usize)
    } else {
        None
    }
}

/// How many characters stand before the first white space of `s`.
pub open spec fn token_len(s: Seq<char>) -> nat
    decreases s.len(),
{
    if s.len() == 0 || white_space(s[0]) {
        0
    } else {
        1 + token_len(s.skip(1))
    }
}

/// The row that a line writes: the nodes of its tokens in order, or `None`
/// where some token names no node.
pub open spec fn row_of(line: Seq<char>) -> Option<Seq<usize>>
    decreases line.len(),
{
    if line.len() == 0 {
        Some(Seq::empty())
    } else if white_space(line[0]) {
        row_of(line.skip(1))
    } else {
        let n = token_len(line);
        proof {
            lemma_token_len(line, 1);
            lemma_token_len_bound(line);
        }
        match token_node(line.take(n as int)) {
            None => None,
            Some(node) => after(seq![node], row_of(line.skip(n as int))),
        }
    }
}

/// `head` followed by a row, where there is one.
pub open spec fn after(head: Seq<usize>, row: Option<Seq<usize>>) -> Option<Seq<usize>> {
    match row {
        Some(rest) => Some(head + rest),
        None => None,
    }
}

/// A token is no longer than what is left of the line.
pub proof fn lemma_token_len_bound(s: Seq<char>)
    ensures
        token_len(s) <= s.len(),
    decreases s.len(),
{
    if s.len() > 0 && !white_space(s[0]) {
        lemma_token_len_bound(s.skip(1));
    }
}

/// A run of `n` characters without white space lies within the first token,
/// and is that token where white space or the end of the line follows.
pub proof fn lemma_token_len(s: Seq<char>, n: int)
    requires
        0 <= n <= s.len(),
        forall|i: int| 0 <= i < n ==> !white_space(#[trigger] s[i]),
    ensures
        token_len(s) >= n,
        n == s.len() || white_space(s[n]) ==> token_len(s) == n,
    decreases n,
{
    if n > 0 {
        let t = s.skip(1);
        assert forall|i: int| 0 <= i < n - 1 implies !white_space(#[trigger] t[i]) by {
            assert(t[i] == s[i + 1]);
        }
        lemma_token_len(t, n - 1);
        if n < s.len() {
            assert(t[n - 1] == s[n]);
        }
    }
}

/// Appending a digit to a run of digits.
proof fn lemma_decimal_push(s: Seq<char>, c: char)
    ensures
        decimal_value(s.push(c)) == decimal_value(s) * 10 + digit_value(c),
        all_digits(s.push(c)) <==> all_digits(s) && is_digit(c),
{
    let t = s.push(c);
    assert(t.drop_last() =~= s);
    assert(t.last() == c);
    if all_digits(t) {
        assert(is_digit(t[s.len() as int]));
        assert forall|i: int| 0 <= i < s.len() implies is_digit(#[trigger] s[i]) by {
            assert(t[i] == s[i]);
        }
    }
}

/// Whether `c` separates tokens.
pub fn is_white_space(c: char) -> (b: bool)
    ensures
        b == white_space(c),
{
    let u: u32 = c as u32;
    (0x09 <= u && u <= 0x0D) || u == 0x20 || u == 0x85 || u == 0xA0 || u == 0x1680 || (0x2000
        <= u && u <= 0x200A) || u == 0x2028 || u == 0x2029 || u == 0x202F || u == 0x205F || u
        == 0x3000
}

/// What is known of the token that the scan stands in.
struct Scan {
    /// A character of the token has been read.
    open: bool,
    /// The token began with `+`.
    signed: bool,
    /// A character has been read after the sign.
    filled: bool,
    /// Nothing but digits has been read after the sign.
    clean: bool,
    /// The digits read so far write a number that a `usize` holds.
    fits: bool,
    /// That number.
    value: usize,
}

impl Scan {
    /// The scan has read exactly `token`.
    spec fn holds(&self, token: Seq<char>) -> bool {
        let body = unsigned_part(token);
        &&& self.open <==> token.len() > 0
        &&& self.signed <==> token.len() > 0 && token[0] == '+'
        &&& self.filled <==> body.len() > 0
        &&& self.clean <==> all_digits(body)
        &&& self.clean && self.fits ==> self.value == decimal_value(body)
        &&& self.clean && !self.fits ==> decimal_value(body) > usize::MAX
    }

    fn fresh() -> (scan: Scan)
        ensures
            scan.holds(Seq::empty()),
    {
        Scan { open: false, signed: false, filled: false, clean: true, fits: true, value: 0 }
    }

    /// Reads one more character of the token.
    fn take(&mut self, c: char, Ghost(token): Ghost<Seq<char>>)
        requires
            old(self).holds(token),
            !white_space(c),
        ensures
            final(self).holds(token.push(c)),
    {
        let u: u32 = c as u32;
        let ghost body = unsigned_part(token);
        let ghost grown = token.push(c);
        if !self.open && u == 0x2B {
            self.open = true;
            self.signed = true;
            proof {
                assert(c == '+');
                assert(unsigned_part(grown) =~= Seq::<char>::empty());
            }
        } else {
            proof {
                assert(unsigned_part(grown) =~= body.push(c));
                lemma_decimal_push(body, c);
            }
            self.open = true;
            self.filled = true;
            if 0x30 <= u && u <= 0x39 {
                if self.clean && self.fits {
                    let digit: usize = (u - 0x30) as usize;
                    if self.value <= (usize::MAX - digit) / 10 {
                        self.value = self.value * 10 + digit;
                    } else {
                        self.fits = false;
                    }
                }
            } else {
                self.clean = false;
            }
        }
    }

    /// The node of the token read, where it names one.
    fn node(&self, Ghost(token): Ghost<Seq<char>>) -> (node: Option<usize>)
        requires
            self.holds(token),
        ensures
            node == token_node(token),
    {
        if self.filled && self.clean && self.fits {
            Some(self.value)
        } else {
            None
        }
    }
}

/// Parses one line of the stream into the row of a node: `None` where a
/// token is not a node number.
pub fn parse_node(line: &str) -> (row: Option<Vec<usize>>)
    ensures
        row is Some <==> row_of(line@) is Some,
        row is Some ==> row->0@ == row_of(line@)->0,
{
    let mut chars = line.chars();
    let mut nodes: Vec<usize> = Vec::new();
    let mut scan = Scan::fresh();
    let ghost mut start: int = 0;
    let ghost mut pos: int = 0;
    proof {
        assert(line@.skip(0) =~= line@);
        assert(line@.subrange(0, 0) =~= Seq::<char>::empty());
    }
    loop
        invariant
            0 <= start <= pos <= line@.len(),
            chars.remaining() == line@.skip(pos),
            chars.obeys_prophetic_iter_laws(),
            forall|i: int| start <= i < pos ==> !white_space(#[trigger] line@[i]),
            scan.holds(line@.subrange(start, pos)),
            row_of(line@) == after(nodes@, row_of(line@.skip(start))),
        decreases line@.len() - pos,
    {
        let ghost token = line@.subrange(start, pos);
        let ghost tail = line@.skip(start);
        let next = chars.next();
        let stop = match next {
            Some(c) => is_white_space(c),
            None => true,
        };
        proof {
            if next is Some {
                assert(line@.skip(pos).len() > 0);
                assert(next->0 == line@[pos]);
                assert(line@.skip(pos).drop_first() =~= line@.skip(pos + 1));
            } else {
                assert(line@.skip(pos).len() == 0);
            }
        }
        if stop {
            if scan.open {
                proof {
                    assert forall|i: int| 0 <= i < pos - start implies !white_space(
                        #[trigger] tail[i],
                    ) by {
                        assert(tail[i] == line@[start + i]);
                    }
                    if pos < line@.len() {
                        assert(tail[pos - start] == line@[pos]);
                    }
                    lemma_token_len(tail, pos - start);
                    assert(tail.take(pos - start) =~= token);
                    assert(tail.skip(pos - start) =~= line@.skip(pos));
                    assert(!white_space(tail[0]));
                }
                match scan.node(Ghost(token)) {
                    Some(node) => {
                        proof {
                            let rest = row_of(line@.skip(pos));
                            if rest is Some {
                                assert(nodes@ + (seq![node] + rest->0) =~= nodes@.push(node)
                                    + rest->0);
                            }
                        }
                        nodes.push(node);
                    },
                    None => {
                        return None;
                    },
                }
            }
            if next.is_none() {
                proof {
                    assert(pos == line@.len());
                    assert(line@.skip(pos).len() == 0);
                    assert(nodes@ + Seq::<usize>::empty() =~= nodes@);
                }
                return Some(nodes);
            }
            scan = Scan::fresh();
            proof {
                assert(line@.skip(pos).skip(1) =~= line@.skip(pos + 1));
                assert(white_space(line@.skip(pos)[0]));
                pos = pos + 1;
                start = pos;
                assert(line@.subrange(start, pos) =~= Seq::<char>::empty());
            }
        } else {
            let c = next.unwrap();
            scan.take(c, Ghost(token));
            proof {
                assert(line@.subrange(start, pos + 1) =~= token.push(c));
                pos = pos + 1;
            }
        }
    }
}

} // verus!
