//! The command language: whitespace-separated tokens, the first naming the
//! command (`run`, `load`, `set`). Every line parses to a command or to a
//! message saying what is wrong with it.

use crate::bits::{bits_of, Bits, MAX_BITS};
use crate::paths::same_text;
use vstd::prelude::*;

verus! {

/// A parsed command line.
pub enum Command {
    Run(u64),
    Load(String),
    SetSignal(String, Bits),
    Noop,
}

/// Whether `c` separates tokens.
pub open spec fn is_space(c: char) -> bool {
    c == ' ' || c == '\t' || c == '\n' || c == '\r'
}

/// The number of characters before the first separator of `s`.
pub open spec fn word_len(s: Seq<char>) -> nat
    decreases s.len(),
{
    if s.len() == 0 || is_space(s[0]) {
        0
    } else {
        1 + word_len(s.drop_first())
    }
}

/// The tokens of `s`, in order.
pub open spec fn tokens(s: Seq<char>) -> Seq<Seq<char>>
    decreases s.len(),
{
    if s.len() == 0 {
        Seq::empty()
    } else if is_space(s[0]) {
        tokens(s.drop_first())
    } else {
        let n = word_len(s);
        if 0 < n <= s.len() {
            seq![s.take(n as int)] + tokens(s.skip(n as int))
        } else {
            Seq::empty()
        }
    }
}

/// `t` is a nonempty run of decimal digits.
pub open spec fn is_decimal(t: Seq<char>) -> bool {
    t.len() > 0 && forall|i: int| 0 <= i < t.len() ==> '0' <= #[trigger] t[i] <= '9'
}

/// The number that the digits `t` spell.
pub open spec fn decimal_value(t: Seq<char>) -> nat
    decreases t.len(),
{
    if t.len() == 0 {
        0
    } else {
        decimal_value(t.drop_last()) * 10 + (t.last() as nat - '0' as nat) as nat
    }
}

/// `t` is a nonempty run of `0` and `1`, no longer than a bit vector can be.
pub open spec fn is_binary(t: Seq<char>) -> bool {
    0 < t.len() <= MAX_BITS && forall|i: int| 0 <= i < t.len() ==> #[trigger] t[i] == '0' || t[i] == '1'
}

/// The bits that the binary literal `t` writes, most significant first:
/// index 0 is its last character.
pub open spec fn binary_bits(t: Seq<char>) -> Seq<bool> {
    Seq::new(t.len(), |i: int| t[t.len() - 1 - i] == '1')
}

proof fn lemma_word_len_le(s: Seq<char>)
    ensures
        word_len(s) <= s.len(),
    decreases s.len(),
{
    if s.len() > 0 && !is_space(s[0]) {
        lemma_word_len_le(s.drop_first());
    }
}

proof fn lemma_word_step(s: Seq<char>, i: int)
    requires
        0 <= i < s.len(),
    ensures
        s.skip(i)[0] == s[i],
        s.skip(i).drop_first() =~= s.skip(i + 1),
{
}

/// The tokens of `line`.
pub fn tokenize(line: &str) -> (r: Vec<String>)
    ensures
        r@.map_values(|t: String| t@) == tokens(line@),
{
    let ghost s = line@;
    let n = line.unicode_len();
    let mut r: Vec<String> = Vec::new();
    let mut i: usize = 0;
    proof {
        assert(s.skip(0) =~= s);
    }
    while i < n
        invariant
            n == s.len(),
            line@ == s,
            i <= n,
            r@.map_values(|t: String| t@) + tokens(s.skip(i as int)) == tokens(s),
        decreases n - i,
    {
        proof {
            lemma_word_step(s, i as int);
        }
        if is_space_char(line.get_char(i)) {
            i = i + 1;
        } else {
            let mut j: usize = i;
            while j < n && !is_space_char(line.get_char(j))
                invariant
                    n == s.len(),
                    line@ == s,
                    i <= j <= n,
                    word_len(s.skip(i as int)) == (j - i) + word_len(s.skip(j as int)),
                    forall|k: int| i <= k < j ==> !is_space(#[trigger] s[k]),
                decreases n - j,
            {
                proof {
                    lemma_word_step(s, j as int);
                }
                j = j + 1;
            }
            proof {
                if j < n {
                    lemma_word_step(s, j as int);
                }
                assert(word_len(s.skip(j as int)) == 0);
                lemma_word_len_le(s.skip(i as int));
                assert(s.skip(i as int).take((j - i) as int) =~= s.subrange(i as int, j as int));
                assert(s.skip(i as int).skip((j - i) as int) =~= s.skip(j as int));
            }
            let tok = line.substring_char(i, j).to_owned();
            let ghost before = r@.map_values(|t: String| t@);
            r.push(tok);
            proof {
                assert(r@.map_values(|t: String| t@) =~= before.push(s.subrange(i as int, j as int)));
                assert(before.push(s.subrange(i as int, j as int)) + tokens(s.skip(j as int)) =~= before + tokens(
                    s.skip(i as int),
                ));
            }
            i = j;
        }
    }
    proof {
        assert(s.skip(n as int).len() == 0);
        assert(r@.map_values(|t: String| t@) =~= tokens(s));
    }
    r
}

/// Whether `c` separates tokens.
fn is_space_char(c: char) -> (r: bool)
    ensures
        r == is_space(c),
{
    c == ' ' || c == '\t' || c == '\n' || c == '\r'
}

proof fn lemma_decimal_grows(t: Seq<char>, k: int)
    requires
        0 <= k <= t.len(),
        forall|i: int| 0 <= i < t.len() ==> '0' <= #[trigger] t[i] <= '9',
    ensures
        decimal_value(t.take(k)) <= decimal_value(t),
    decreases t.len() - k,
{
    if k < t.len() {
        lemma_decimal_grows(t, k + 1);
        assert(t.take(k + 1).drop_last() =~= t.take(k));
    } else {
        assert(t.take(k) =~= t);
    }
}

/// The number that the decimal token `t` spells, if it is one and fits in
/// a `u64`.
pub fn parse_decimal(t: &str) -> (r: Option<u64>)
    ensures
        r is Some <==> is_decimal(t@) && decimal_value(t@) <= u64::MAX,
        r matches Some(v) ==> v == decimal_value(t@),
{
    let n = t.unicode_len();
    if n == 0 {
        return None;
    }
    let mut v: u64 = 0;
    let mut i: usize = 0;
    while i < n
        invariant
            n == t@.len() > 0,
            i <= n,
            forall|k: int| 0 <= k < i ==> '0' <= #[trigger] t@[k] <= '9',
            v == decimal_value(t@.take(i as int)),
        decreases n - i,
    {
        let c = t.get_char(i);
        if c < '0' || c > '9' {
            return None;
        }
        let d = (c as u32 - '0' as u32) as u64;
        proof {
            assert(t@.take(i + 1).drop_last() =~= t@.take(i as int));
        }
        if v > (u64::MAX - d) / 10 {
            proof {
                assert(v * 10 + d > u64::MAX) by (nonlinear_arith)
                    requires
                        v > (u64::MAX - d) / 10,
                        d <= 9,
                ;
                if forall|k: int| 0 <= k < t@.len() ==> '0' <= #[trigger] t@[k] <= '9' {
                    lemma_decimal_grows(t@, i + 1);
                }
            }
            return None;
        }
        proof {
            assert(v * 10 + d <= u64::MAX) by (nonlinear_arith)
                requires
                    v <= (u64::MAX - d) / 10,
                    d <= 9,
            ;
        }
        v = v * 10 + d;
        i = i + 1;
    }
    proof {
        assert(t@.take(n as int) =~= t@);
    }
    Some(v)
}

/// The bits that the binary literal `t` writes, if it is one.
pub fn parse_binary(t: &str) -> (r: Option<Bits>)
    ensures
        r is Some <==> is_binary(t@),
        r matches Some(b) ==> bits_of(b) == binary_bits(t@),
{
    let n = t.unicode_len();
    if n == 0 || n > MAX_BITS {
        return None;
    }
    let mut b = Bits::new();
    let mut k: usize = 0;
    while k < n
        invariant
            n == t@.len(),
            0 < n <= MAX_BITS,
            k <= n,
            forall|i: int| n - k <= i < n ==> #[trigger] t@[i] == '0' || t@[i] == '1',
            bits_of(b) == Seq::new(k as nat, |i: int| t@[t@.len() - 1 - i] == '1'),
        decreases n - k,
    {
        let c = t.get_char(n - 1 - k);
        if c != '0' && c != '1' {
            return None;
        }
        b.push(c == '1');
        proof {
            assert(bits_of(b) =~= Seq::new((k + 1) as nat, |i: int| t@[t@.len() - 1 - i] == '1'));
        }
        k = k + 1;
    }
    proof {
        assert(bits_of(b) =~= binary_bits(t@));
    }
    Some(b)
}

/// What `interpret` makes of the tokens `t`, up to the bits of a `set`
/// value: `None` for a syntax error.
pub open spec fn meaning(t: Seq<Seq<char>>) -> Option<Meaning> {
    if t.len() == 0 {
        Some(Meaning::Noop)
    } else if t[0] == "run"@ {
        if t.len() == 2 && is_decimal(t[1]) && decimal_value(t[1]) <= u64::MAX {
            Some(Meaning::Run(decimal_value(t[1])))
        } else {
            None
        }
    } else if t[0] == "load"@ {
        if t.len() == 2 {
            Some(Meaning::Load(t[1]))
        } else {
            None
        }
    } else if t[0] == "set"@ {
        if t.len() == 3 && is_binary(t[2]) {
            Some(Meaning::SetSignal(t[1], binary_bits(t[2])))
        } else {
            None
        }
    } else {
        None
    }
}

/// A command as values: what `Command` holds, with bits as a sequence.
pub ghost enum Meaning {
    Run(nat),
    Load(Seq<char>),
    SetSignal(Seq<char>, Seq<bool>),
    Noop,
}

/// What `c` holds, as values.
pub open spec fn meaning_of(c: Command) -> Meaning {
    match c {
        Command::Run(d) => Meaning::Run(d as nat),
        Command::Load(p) => Meaning::Load(p@),
        Command::SetSignal(n, b) => Meaning::SetSignal(n@, bits_of(b)),
        Command::Noop => Meaning::Noop,
    }
}

/// Parses a command line. Every line gives a command or an error message;
/// an empty line gives `Noop`.
pub fn interpret(line: &str) -> (r: Result<Command, String>)
    ensures
        match meaning(tokens(line@)) {
            Some(m) => r matches Ok(c) && meaning_of(c) == m,
            None => r is Err,
        },
{
    let toks = tokenize(line);
    let ghost t = tokens(line@);
    proof {
        assert(toks@.len() == t.len());
        assert forall|i: int| 0 <= i < toks@.len() implies #[trigger] toks@[i]@ == t[i] by {
            assert(toks@.map_values(|x: String| x@)[i] == toks@[i]@);
        }
    }
    if toks.len() == 0 {
        return Ok(Command::Noop);
    }
    let head = toks[0].as_str();
    if same_text(head, "run") {
        if toks.len() != 2 {
            return Err("run: expected one duration".to_owned());
        }
        match parse_decimal(toks[1].as_str()) {
            Some(d) => Ok(Command::Run(d)),
            None => Err("run: the duration is not an unsigned integer".to_owned()),
        }
    } else if same_text(head, "load") {
        if toks.len() != 2 {
            return Err("load: expected one path".to_owned());
        }
        Ok(Command::Load(toks[1].clone()))
    } else if same_text(head, "set") {
        if toks.len() != 3 {
            return Err("set: expected a signal and a value".to_owned());
        }
        match parse_binary(toks[2].as_str()) {
            Some(b) => Ok(Command::SetSignal(toks[1].clone(), b)),
            None => Err("set: the value is not a binary literal".to_owned()),
        }
    } else {
        Err("unknown command".to_owned())
    }
}

} // verus!
