//! Square-1 puzzle state and scramble generation: the cube state
//! machine lives in `cube`; this root module holds the recorded
//! scramble and its standard textual notation.

pub mod cube;

use vstd::prelude::*;
use vstd::string::StringExecFns;

verus! {

/// Text of one twist amount between -6 and 6.
pub open spec fn amount_text(n: int) -> Seq<char> {
    if n == -6 {
        seq!['-', '6']
    } else if n == -5 {
        seq!['-', '5']
    } else if n == -4 {
        seq!['-', '4']
    } else if n == -3 {
        seq!['-', '3']
    } else if n == -2 {
        seq!['-', '2']
    } else if n == -1 {
        seq!['-', '1']
    } else if n == 0 {
        seq!['0']
    } else if n == 1 {
        seq!['1']
    } else if n == 2 {
        seq!['2']
    } else if n == 3 {
        seq!['3']
    } else if n == 4 {
        seq!['4']
    } else if n == 5 {
        seq!['5']
    } else {
        seq!['6']
    }
}

/// Text of one recorded pair, in tuple form: "(top, bottom)".
pub open spec fn pair_text(p: (i8, i8)) -> Seq<char> {
    seq!['('] + amount_text(p.0 as int) + seq![',', ' '] + amount_text(p.1 as int) + seq![')']
}

/// Text of a sequence of recorded pairs, joined by " / " with no
/// trailing separator.
pub open spec fn turns_text(ts: Seq<(i8, i8)>) -> Seq<char>
    decreases ts.len(),
{
    if ts.len() == 0 {
        Seq::empty()
    } else if ts.len() == 1 {
        pair_text(ts[0])
    } else {
        turns_text(ts.drop_last()) + seq![' ', '/', ' '] + pair_text(ts.last())
    }
}

/// Appends the text of one twist amount to the output.
fn push_amount(out: &mut String, n: i8)
    requires
        -6 <= n <= 6,
    ensures
        final(out)@ == old(out)@ + amount_text(n as int),
{
    if n == -6 {
        out.append("-6");
        proof {
            reveal_strlit("-6");
            assert("-6"@ =~= amount_text(-6));
        }
    } else if n == -5 {
        out.append("-5");
        proof {
            reveal_strlit("-5");
            assert("-5"@ =~= amount_text(-5));
        }
    } else if n == -4 {
        out.append("-4");
        proof {
            reveal_strlit("-4");
            assert("-4"@ =~= amount_text(-4));
        }
    } else if n == -3 {
        out.append("-3");
        proof {
            reveal_strlit("-3");
            assert("-3"@ =~= amount_text(-3));
        }
    } else if n == -2 {
        out.append("-2");
        proof {
            reveal_strlit("-2");
            assert("-2"@ =~= amount_text(-2));
        }
    } else if n == -1 {
        out.append("-1");
        proof {
            reveal_strlit("-1");
            assert("-1"@ =~= amount_text(-1));
        }
    } else if n == 0 {
        out.append("0");
        proof {
            reveal_strlit("0");
            assert("0"@ =~= amount_text(0));
        }
    } else if n == 1 {
        out.append("1");
        proof {
            reveal_strlit("1");
            assert("1"@ =~= amount_text(1));
        }
    } else if n == 2 {
        out.append("2");
        proof {
            reveal_strlit("2");
            assert("2"@ =~= amount_text(2));
        }
    } else if n == 3 {
        out.append("3");
        proof {
            reveal_strlit("3");
            assert("3"@ =~= amount_text(3));
        }
    } else if n == 4 {
        out.append("4");
        proof {
            reveal_strlit("4");
            assert("4"@ =~= amount_text(4));
        }
    } else if n == 5 {
        out.append("5");
        proof {
            reveal_strlit("5");
            assert("5"@ =~= amount_text(5));
        }
    } else {
        out.append("6");
        proof {
            reveal_strlit("6");
            assert("6"@ =~= amount_text(6));
        }
    }
}

/// The recorded twist pairs of one scramble run, in order.
#[derive(Debug)]
pub struct Scramble {
    pub turns: Vec<(i8, i8)>,
}

impl Scramble {
    /// Renders the scramble in standard notation: each pair in its
    /// tuple form, consecutive pairs joined by " / ". A scramble
    /// holds the output of a scramble run, so it is not empty and
    /// every recorded amount lies between -6 and 6.
    pub fn render(&self) -> (r: String)
        requires
            self.turns@.len() >= 1,
            forall|k: int|
                0 <= k < self.turns@.len() ==> (-6 <= (#[trigger] self.turns@[k]).0 <= 6 && -6
                    <= self.turns@[k].1 <= 6),
        ensures
            r@ == turns_text(self.turns@),
    {
        let ghost ts = self.turns@;
        let mut out = String::new();
        let mut i: usize = 0;
        while i < self.turns.len()
            invariant
                self.turns@ == ts,
                i <= ts.len(),
                forall|k: int|
                    0 <= k < ts.len() ==> (-6 <= (#[trigger] ts[k]).0 <= 6 && -6 <= ts[k].1
                        <= 6),
                out@ == turns_text(ts.take(i as int)),
            decreases ts.len() - i,
        {
            if i > 0 {
                out.append(" / ");
                proof {
                    reveal_strlit(" / ");
                    assert(" / "@ =~= seq![' ', '/', ' ']);
                }
            }
            let pair = self.turns[i];
            out.append("(");
            push_amount(&mut out, pair.0);
            out.append(", ");
            push_amount(&mut out, pair.1);
            out.append(")");
            proof {
                reveal_strlit("(");
                reveal_strlit(", ");
                reveal_strlit(")");
                assert("("@ =~= seq!['(']);
                assert(", "@ =~= seq![',', ' ']);
                assert(")"@ =~= seq![')']);
                let upto = ts.take(i + 1);
                assert(upto.drop_last() =~= ts.take(i as int));
                assert(upto.last() == ts[i as int]);
                assert(out@ =~= turns_text(upto));
            }
            i += 1;
        }
        proof {
            assert(ts.take(ts.len() as int) =~= ts);
        }
        out
    }
}

} // verus!
