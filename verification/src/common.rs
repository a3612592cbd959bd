//! How many times a field of a deserialized struct may occur.
use vstd::prelude::*;
use vstd::string::{StrSliceExecFns, StringExecFns};

verus! {

/// How many times a field may occur, which follows from its Rust type.
#[derive(Clone, Copy, Debug, PartialEq, Eq, Structural)]
pub enum Quantifier {
    /// Always should have exactly one, no constraints on rust type
    Single,
    /// Always should have zero or one, rust type should be an [`Option`]
    Optional,
    /// Can have any number, rust type should be a [`Vec`]
    Multiple,
}

} // verus!

verus! {

/// Whether `c` has the Unicode `Uppercase` property (what `char::is_uppercase` gives).
pub uninterp spec fn unicode_uppercase(c: char) -> bool;

/// `char::is_uppercase`: whether `c` has the Unicode `Uppercase` property, which among ASCII
/// characters the letters `A` to `Z` have.
#[verifier::external_body]
fn is_uppercase(c: char) -> (res: bool)
    ensures
        res == unicode_uppercase(c),
        (c as u32) < 0x80 ==> (res <==> ('A' <= c <= 'Z')),
{
    c.is_uppercase()
}

/// `c` with the ASCII letters `A` to `Z` turned to lowercase.
pub open spec fn ascii_lower(c: char) -> char {
    if 'A' <= c <= 'Z' {
        ((c as u32) + 32) as char
    } else {
        c
    }
}

fn lower_letter(c: char) -> (res: &'static str)
    requires
        'A' <= c <= 'Z',
    ensures
        res@ == seq![ascii_lower(c)],
{
    let r = match c {
        'A' => "a",
        'B' => "b",
        'C' => "c",
        'D' => "d",
        'E' => "e",
        'F' => "f",
        'G' => "g",
        'H' => "h",
        'I' => "i",
        'J' => "j",
        'K' => "k",
        'L' => "l",
        'M' => "m",
        'N' => "n",
        'O' => "o",
        'P' => "p",
        'Q' => "q",
        'R' => "r",
        'S' => "s",
        'T' => "t",
        'U' => "u",
        'V' => "v",
        'W' => "w",
        'X' => "x",
        'Y' => "y",
        _ => "z",
    };
    proof {
        reveal_strlit("a");
        reveal_strlit("b");
        reveal_strlit("c");
        reveal_strlit("d");
        reveal_strlit("e");
        reveal_strlit("f");
        reveal_strlit("g");
        reveal_strlit("h");
        reveal_strlit("i");
        reveal_strlit("j");
        reveal_strlit("k");
        reveal_strlit("l");
        reveal_strlit("m");
        reveal_strlit("n");
        reveal_strlit("o");
        reveal_strlit("p");
        reveal_strlit("q");
        reveal_strlit("r");
        reveal_strlit("s");
        reveal_strlit("t");
        reveal_strlit("u");
        reveal_strlit("v");
        reveal_strlit("w");
        reveal_strlit("x");
        reveal_strlit("y");
        reveal_strlit("z");
    }
    r
}

/// A name written in PascalCase written in snake_case: every uppercase character but a first
/// one gets a `_` before it, and ASCII letters are lowered.
pub open spec fn snake_case(s: Seq<char>) -> Seq<char>
    decreases s.len(),
{
    if s.len() == 0 {
        seq![]
    } else {
        let out = snake_case(s.drop_last());
        let c = s.last();
        if unicode_uppercase(c) {
            (if out.len() > 0 {
                out.push('_')
            } else {
                out
            }).push(ascii_lower(c))
        } else {
            out.push(c)
        }
    }
}

proof fn lemma_snake_case_empty(s: Seq<char>)
    ensures
        (snake_case(s).len() == 0) == (s.len() == 0),
    decreases s.len(),
{
    if s.len() > 0 {
        lemma_snake_case_empty(s.drop_last());
    }
}

/// Writes the PascalCase name `s` in snake_case.
pub fn pascal_case_to_snake_case(s: &str) -> (res: String)
    ensures
        res@ == snake_case(s@),
{
    proof {
        reveal_strlit("_");
    }
    let n = s.unicode_len();
    let mut out = String::new();
    let mut i: usize = 0;
    assert(s@.take(0) =~= Seq::<char>::empty());
    while i < n
        invariant
            n == s@.len(),
            0 <= i <= n,
            out@ == snake_case(s@.take(i as int)),
        decreases n - i,
    {
        let ghost pre = s@.take(i as int);
        assert(s@.take(i + 1).drop_last() =~= pre);
        proof {
            lemma_snake_case_empty(pre);
        }
        let c = s.get_char(i);
        assert(s@.take(i + 1).last() == c);
        let one = s.substring_char(i, i + 1);
        assert(one@ =~= seq![c]);
        proof {
            reveal_strlit("_");
        }
        assert("_"@ =~= seq!['_']);
        if is_uppercase(c) {
            if i > 0 {
                out.append("_");
            }
            if 'A' <= c && c <= 'Z' {
                out.append(lower_letter(c));
            } else {
                out.append(one);
            }
        } else {
            out.append(one);
        }
        i = i + 1;
    }
    assert(s@.take(n as int) =~= s@);
    out
}

} // verus!
