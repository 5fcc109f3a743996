//! The textual form of a puzzle: `<size><` then `<target>.<op>.<i,j,...>>` for each cage.
use vstd::prelude::*;
use crate::solver::{Cage, KenkenPuzzle, MathOp};

verus! {

pub open spec fn digit_char(d: nat) -> char {
    if d == 0 {
        '0'
    } else if d == 1 {
        '1'
    } else if d == 2 {
        '2'
    } else if d == 3 {
        '3'
    } else if d == 4 {
        '4'
    } else if d == 5 {
        '5'
    } else if d == 6 {
        '6'
    } else if d == 7 {
        '7'
    } else if d == 8 {
        '8'
    } else {
        '9'
    }
}

/// The decimal digits of `n`, most significant first, without leading zeros.
pub open spec fn decimal(n: nat) -> Seq<char>
    decreases n,
{
    if n < 10 {
        seq![digit_char(n)]
    } else {
        decimal(n / 10) + seq![digit_char(n % 10)]
    }
}

pub open spec fn op_char(op: MathOp) -> char {
    match op {
        MathOp::Add => 'a',
        MathOp::Mul => 'm',
        MathOp::Div => 'd',
        MathOp::Sub => 's',
        MathOp::Free => 'f',
    }
}

/// The cell indices in decimal, separated by commas.
pub open spec fn cells_text(cells: Seq<usize>) -> Seq<char>
    decreases cells.len(),
{
    if cells.len() == 0 {
        seq![]
    } else if cells.len() == 1 {
        decimal(cells[0] as nat)
    } else {
        cells_text(cells.drop_last()) + seq![','] + decimal(cells.last() as nat)
    }
}

pub open spec fn cage_text(c: Cage) -> Seq<char> {
    decimal(c.target as nat) + seq!['.', op_char(c.operation), '.'] + cells_text(c.cells@) + seq![
        '>',
    ]
}

pub open spec fn cages_text(cages: Seq<Cage>) -> Seq<char>
    decreases cages.len(),
{
    if cages.len() == 0 {
        seq![]
    } else {
        cages_text(cages.drop_last()) + cage_text(cages.last())
    }
}

/// The textual form of the whole puzzle.
pub open spec fn puzzle_text(p: KenkenPuzzle) -> Seq<char> {
    decimal(p.size as nat) + seq!['<'] + cages_text(p.cages@)
}

fn digit_str(d: u64) -> (r: &'static str)
    requires
        d < 10,
    ensures
        r@ == seq![digit_char(d as nat)],
{
    proof {
        reveal_strlit("0");
        reveal_strlit("1");
        reveal_strlit("2");
        reveal_strlit("3");
        reveal_strlit("4");
        reveal_strlit("5");
        reveal_strlit("6");
        reveal_strlit("7");
        reveal_strlit("8");
        reveal_strlit("9");
    }
    let r = if d == 0 {
        "0"
    } else if d == 1 {
        "1"
    } else if d == 2 {
        "2"
    } else if d == 3 {
        "3"
    } else if d == 4 {
        "4"
    } else if d == 5 {
        "5"
    } else if d == 6 {
        "6"
    } else if d == 7 {
        "7"
    } else if d == 8 {
        "8"
    } else {
        "9"
    };
    assert(r@ =~= seq![digit_char(d as nat)]);
    r
}

fn push_decimal(s: &mut String, n: u64)
    ensures
        final(s)@ == old(s)@ + decimal(n as nat),
    decreases n,
{
    if n >= 10 {
        push_decimal(s, n / 10);
    }
    s.append(digit_str(n % 10));
    assert(final(s)@ =~= old(s)@ + decimal(n as nat));
}

fn push_str(s: &mut String, t: &str)
    ensures
        final(s)@ == old(s)@ + t@,
{
    s.append(t);
}

impl KenkenPuzzle {
    /// The puzzle as text: the size, `<`, then for each cage its target, `.`, its operation
    /// letter (`a`, `s`, `m`, `d`, `f`), `.`, its cell indices separated by commas, and `>`.
    pub fn format(&self) -> (r: String)
        ensures
            r@ == puzzle_text(*self),
    {
        proof {
            reveal_strlit("<");
        }
        let mut string = String::new();
        push_decimal(&mut string, self.size as u64);
        push_str(&mut string, "<");
        assert(string@ =~= decimal(self.size as nat) + seq!['<'] + cages_text(
            self.cages@.subrange(0, 0),
        ));
        let mut k: usize = 0;
        while k < self.cages.len()
            invariant
                k <= self.cages.len(),
                string@ == decimal(self.size as nat) + seq!['<'] + cages_text(
                    self.cages@.subrange(0, k as int),
                ),
            decreases self.cages.len() - k,
        {
            proof {
                reveal_strlit(">");
                reveal_strlit(",");
                reveal_strlit(".");
                reveal_strlit("a");
                reveal_strlit("m");
                reveal_strlit("d");
                reveal_strlit("s");
                reveal_strlit("f");
            }
            let cage = &self.cages[k];
            let ghost before = string@;
            push_decimal(&mut string, cage.target as u64);
            push_str(&mut string, ".");
            let op = match cage.operation {
                MathOp::Add => "a",
                MathOp::Mul => "m",
                MathOp::Div => "d",
                MathOp::Sub => "s",
                MathOp::Free => "f",
            };
            assert(op@ =~= seq![op_char(cage.operation)]);
            push_str(&mut string, op);
            push_str(&mut string, ".");
            let ghost mid = string@;
            let mut j: usize = 0;
            assert(cage.cells@.subrange(0, 0) =~= seq![]);
            assert(string@ =~= mid + cells_text(cage.cells@.subrange(0, 0)));
            while j < cage.cells.len()
                invariant
                    j <= cage.cells.len(),
                    string@ == mid + cells_text(cage.cells@.subrange(0, j as int)),
                decreases cage.cells.len() - j,
            {
                proof {
                    reveal_strlit(",");
                }
                let ghost sub = cage.cells@.subrange(0, j + 1);
                assert(sub.drop_last() =~= cage.cells@.subrange(0, j as int));
                assert(sub.last() == cage.cells@[j as int]);
                if j > 0 {
                    push_str(&mut string, ",");
                }
                push_decimal(&mut string, cage.cells[j] as u64);
                assert(string@ =~= mid + cells_text(sub));
                j += 1;
            }
            assert(cage.cells@.subrange(0, j as int) =~= cage.cells@);
            push_str(&mut string, ">");
            proof {
                let cs = self.cages@.subrange(0, k + 1);
                assert(cs.drop_last() =~= self.cages@.subrange(0, k as int));
                assert(cs.last() == *cage);
                assert(string@ =~= before + cage_text(*cage));
            }
            k += 1;
        }
        assert(self.cages@.subrange(0, k as int) =~= self.cages@);
        string
    }
}

} // verus!
