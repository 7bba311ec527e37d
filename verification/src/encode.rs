//! The textual form of actions.
//!
//! Every action has a code of its own: one letter, or for an `Extension`
//! the letter `B` followed by the offset in parentheses. A sequence of
//! actions is written as the codes of its actions, one after the other.

use crate::action::Action;
use vstd::prelude::*;

verus! {

/// The character for the decimal digit `d`.
pub open spec fn digit(d: int) -> char {
    if d == 0 {
        '0'
    } else if d == 1 {
        '1'
    } else if d == 2 {
        '2'
    } else if d == 3 {
        '3'
    } else if d == 4 {
        '4'
    } else if d == 5 {
        '5'
    } else if d == 6 {
        '6'
    } else if d == 7 {
        '7'
    } else if d == 8 {
        '8'
    } else {
        '9'
    }
}

/// The decimal digits of `n`, the most significant first, without leading
/// zeros.
pub open spec fn digits(n: nat) -> Seq<char>
    decreases n,
{
    if n < 10 {
        seq![digit(n as int)]
    } else {
        digits(n / 10).push(digit((n % 10) as int))
    }
}

/// The decimal form of `v`: its digits, after a minus sign where `v` is
/// negative.
pub open spec fn decimal(v: int) -> Seq<char> {
    if v < 0 {
        seq!['-'] + digits((-v) as nat)
    } else {
        digits(v as nat)
    }
}

/// The code of one action.
pub open spec fn code(a: Action) -> Seq<char> {
    match a {
        Action::Move(d) => if d == 0 {
            seq!['D']
        } else if d == 1 {
            seq!['S']
        } else if d == 2 {
            seq!['A']
        } else {
            seq!['W']
        },
        Action::Nothing => seq!['Z'],
        Action::TurnR => seq!['E'],
        Action::TurnL => seq!['Q'],
        Action::Extension(dx, dy) => ((seq!['B', '('] + decimal(dx as int)).push(',') + decimal(
            dy as int,
        )).push(')'),
        Action::Fast => seq!['F'],
        Action::Drill => seq!['L'],
    }
}

/// The text for a sequence of actions: the codes of its actions in order.
pub open spec fn encoding(list: Seq<Action>) -> Seq<char>
    decreases list.len(),
{
    if list.len() == 0 {
        Seq::empty()
    } else {
        encoding(list.drop_last()) + code(list.last())
    }
}

/// Whether every action of `list` is valid.
pub open spec fn all_valid(list: Seq<Action>) -> bool {
    forall|i: int| 0 <= i < list.len() ==> (#[trigger] list[i]).valid()
}

/// The text of one decimal digit.
fn digit_text(d: u32) -> (text: &'static str)
    requires
        d < 10,
    ensures
        text@ == seq![digit(d as int)],
{
    let text = if d == 0 {
        "0"
    } else if d == 1 {
        "1"
    } else if d == 2 {
        "2"
    } else if d == 3 {
        "3"
    } else if d == 4 {
        "4"
    } else if d == 5 {
        "5"
    } else if d == 6 {
        "6"
    } else if d == 7 {
        "7"
    } else if d == 8 {
        "8"
    } else {
        "9"
    };
    proof {
        reveal_strlit("0");
        reveal_strlit("1");
        reveal_strlit("2");
        reveal_strlit("3");
        reveal_strlit("4");
        reveal_strlit("5");
        reveal_strlit("6");
        reveal_strlit("7");
        reveal_strlit("8");
        reveal_strlit("9");
        assert(text@ =~= seq![digit(d as int)]);
    }
    text
}

/// Appends the decimal digits of `n` to `out`.
fn push_digits(out: &mut String, n: u32)
    ensures
        final(out)@ == old(out)@ + digits(n as nat),
    decreases n,
{
    if n >= 10 {
        push_digits(out, n / 10);
    }
    out.append(digit_text(n % 10));
    proof {
        if n >= 10 {
            assert(out@ =~= old(out)@ + digits(n as nat));
        }
    }
}

/// Appends the decimal form of `v` to `out`.
fn push_decimal(out: &mut String, v: i32)
    ensures
        final(out)@ == old(out)@ + decimal(v as int),
{
    if v < 0 {
        out.append("-");
        let magnitude: u32 = if v == i32::MIN {
            2147483648u32
        } else {
            (-v) as u32
        };
        push_digits(out, magnitude);
        proof {
            reveal_strlit("-");
            assert("-"@ =~= seq!['-']);
            assert(out@ =~= old(out)@ + decimal(v as int));
        }
    } else {
        push_digits(out, v as u32);
    }
}

/// Appends the code of `a` to `out`.
fn push_code(out: &mut String, a: Action)
    requires
        a.valid(),
    ensures
        final(out)@ == old(out)@ + code(a),
{
    proof {
        reveal_strlit("D");
        reveal_strlit("S");
        reveal_strlit("A");
        reveal_strlit("W");
        reveal_strlit("Z");
        reveal_strlit("E");
        reveal_strlit("Q");
        reveal_strlit("F");
        reveal_strlit("L");
        reveal_strlit("B(");
        reveal_strlit(",");
        reveal_strlit(")");
    }
    match a {
        Action::Move(d) => {
            let text = if d == 0 {
                "D"
            } else if d == 1 {
                "S"
            } else if d == 2 {
                "A"
            } else {
                "W"
            };
            assert(text@ =~= code(a));
            out.append(text);
        },
        Action::Nothing => {
            assert("Z"@ =~= code(a));
            out.append("Z");
        },
        Action::TurnR => {
            assert("E"@ =~= code(a));
            out.append("E");
        },
        Action::TurnL => {
            assert("Q"@ =~= code(a));
            out.append("Q");
        },
        Action::Extension(dx, dy) => {
            out.append("B(");
            push_decimal(out, dx);
            out.append(",");
            push_decimal(out, dy);
            out.append(")");
            assert("B("@ =~= seq!['B', '(']);
            assert(","@ =~= seq![',']);
            assert(")"@ =~= seq![')']);
            assert(out@ =~= old(out)@ + code(a));
        },
        Action::Fast => {
            assert("F"@ =~= code(a));
            out.append("F");
        },
        Action::Drill => {
            assert("L"@ =~= code(a));
            out.append("L");
        },
    }
}

/// Writes a sequence of actions as text.
pub fn actions_to_string(list: &Vec<Action>) -> (text: String)
    requires
        all_valid(list@),
    ensures
        text@ == encoding(list@),
{
    let mut out = String::new();
    let mut i: usize = 0;
    while i < list.len()
        invariant
            i <= list@.len(),
            all_valid(list@),
            out@ == encoding(list@.take(i as int)),
        decreases list@.len() - i,
    {
        push_code(&mut out, list[i]);
        proof {
            let upto = list@.take(i + 1);
            assert(upto.drop_last() =~= list@.take(i as int));
            assert(upto.last() == list@[i as int]);
        }
        i += 1;
    }
    assert(list@.take(i as int) =~= list@);
    out
}

/// The text for two sequences, one after the other, is the text of the
/// first followed by the text of the second.
pub proof fn lemma_encoding_concat(first: Seq<Action>, second: Seq<Action>)
    ensures
        encoding(first + second) == encoding(first) + encoding(second),
    decreases second.len(),
{
    if second.len() == 0 {
        assert(first + second =~= first);
        assert(encoding(first) + encoding(second) =~= encoding(first));
    } else {
        lemma_encoding_concat(first, second.drop_last());
        assert((first + second).drop_last() =~= first + second.drop_last());
        assert((first + second).last() == second.last());
        assert(encoding(first + second) =~= encoding(first) + encoding(second));
    }
}

/// The text of a single action is its code.
pub proof fn lemma_encoding_single(a: Action)
    ensures
        encoding(seq![a]) == code(a),
{
    let one = seq![a];
    assert(one.drop_last() =~= Seq::<Action>::empty());
    assert(encoding(one.drop_last()) + code(a) =~= code(a));
}

/// Whether `c` is none of the characters that set the parts of a code
/// apart: the comma and the two parentheses.
spec fn inner(c: char) -> bool {
    c != ',' && c != '(' && c != ')'
}

/// The digits of a number are at least one, and none of them is a minus
/// sign, a comma or a parenthesis.
proof fn lemma_digits_shape(n: nat)
    ensures
        digits(n).len() >= 1,
        forall|i: int|
            0 <= i < digits(n).len() ==> inner(#[trigger] digits(n)[i]) && digits(n)[i] != '-',
    decreases n,
{
    if n >= 10 {
        lemma_digits_shape(n / 10);
    }
}

/// Different numbers have different digits.
proof fn lemma_digits_injective(n: nat, m: nat)
    requires
        digits(n) == digits(m),
    ensures
        n == m,
    decreases n,
{
    lemma_digits_shape(n / 10);
    lemma_digits_shape(m / 10);
    if n < 10 && m < 10 {
        assert(digits(n)[0] == digit(n as int));
        assert(digits(m)[0] == digit(m as int));
    } else if n < 10 {
        assert(digits(n).len() == 1);
        assert(digits(m).len() == digits(m / 10).len() + 1);
    } else if m < 10 {
        assert(digits(m).len() == 1);
        assert(digits(n).len() == digits(n / 10).len() + 1);
    } else {
        assert(digits(n / 10) =~= digits(n).drop_last());
        assert(digits(m / 10) =~= digits(m).drop_last());
        assert(digits(n).last() == digit((n % 10) as int));
        assert(digits(m).last() == digit((m % 10) as int));
        lemma_digits_injective(n / 10, m / 10);
        assert(n % 10 == m % 10);
    }
}

/// The decimal form of a number holds no comma and no parenthesis.
proof fn lemma_decimal_shape(v: int)
    ensures
        decimal(v).len() >= 1,
        forall|i: int| 0 <= i < decimal(v).len() ==> inner(#[trigger] decimal(v)[i]),
{
    if v < 0 {
        lemma_digits_shape((-v) as nat);
    } else {
        lemma_digits_shape(v as nat);
    }
}

/// Different numbers have different decimal forms.
proof fn lemma_decimal_injective(v: int, w: int)
    requires
        decimal(v) == decimal(w),
    ensures
        v == w,
{
    if v < 0 {
        lemma_digits_shape((-v) as nat);
    } else {
        lemma_digits_shape(v as nat);
    }
    if w < 0 {
        lemma_digits_shape((-w) as nat);
    } else {
        lemma_digits_shape(w as nat);
    }
    if v < 0 && w < 0 {
        let a = digits((-v) as nat);
        let c = digits((-w) as nat);
        assert(a =~= decimal(v).subrange(1, decimal(v).len() as int));
        assert(c =~= decimal(w).subrange(1, decimal(w).len() as int));
        lemma_digits_injective((-v) as nat, (-w) as nat);
    } else if v >= 0 && w >= 0 {
        lemma_digits_injective(v as nat, w as nat);
    } else if v < 0 {
        assert(decimal(v)[0] == '-');
        assert(decimal(w)[0] == digits(w as nat)[0]);
    } else {
        assert(decimal(w)[0] == '-');
        assert(decimal(v)[0] == digits(v as nat)[0]);
    }
}

/// A text that ends in a separator followed by characters other than the
/// separator can be cut at that separator in one way only.
proof fn lemma_cut(x: Seq<char>, d: Seq<char>, y: Seq<char>, e: Seq<char>, sep: char)
    requires
        x.push(sep) + d == y.push(sep) + e,
        forall|i: int| 0 <= i < d.len() ==> d[i] != sep,
        forall|i: int| 0 <= i < e.len() ==> e[i] != sep,
    ensures
        x == y,
        d == e,
{
    let t = x.push(sep) + d;
    let u = y.push(sep) + e;
    assert(t.len() == x.len() + 1 + d.len());
    assert(u.len() == y.len() + 1 + e.len());
    if d.len() < e.len() {
        assert(t[x.len() as int] == sep);
        assert(u[x.len() as int] == e[x.len() - y.len() - 1]);
    } else if e.len() < d.len() {
        assert(u[y.len() as int] == sep);
        assert(t[y.len() as int] == d[y.len() - x.len() - 1]);
    } else {
        assert forall|i: int| 0 <= i < x.len() implies x[i] == y[i] by {
            assert(t[i] == x[i]);
            assert(u[i] == y[i]);
        }
        assert(x =~= y);
        assert forall|i: int| 0 <= i < d.len() implies d[i] == e[i] by {
            assert(t[x.len() + 1 + i] == d[i]);
            assert(u[y.len() + 1 + i] == e[i]);
        }
        assert(d =~= e);
    }
}

/// The last character of the code of an action.
spec fn closing(a: Action) -> char {
    match a {
        Action::Extension(_, _) => ')',
        _ => code(a)[0],
    }
}

/// The code of an action ends in its closing character, which is all of the
/// code unless the action is an `Extension`.
proof fn lemma_closing(a: Action)
    ensures
        code(a).len() >= 1,
        code(a).last() == closing(a),
        !(a is Extension) ==> code(a) == seq![closing(a)] && closing(a) != ')',
{
    if !(a is Extension) {
        assert(code(a) =~= seq![closing(a)]);
    }
}

/// Valid actions other than `Extension` with the same code are the same.
proof fn lemma_letter_injective(a: Action, c: Action)
    requires
        a.valid(),
        c.valid(),
        !(a is Extension),
        !(c is Extension),
        closing(a) == closing(c),
    ensures
        a == c,
{
}

/// Two texts that end in the codes of two `Extension` actions are equal
/// only if the offsets are the same and the texts before the codes are
/// equal.
proof fn lemma_last_extension(
    x: Seq<char>,
    ax: int,
    ay: int,
    y: Seq<char>,
    cx: int,
    cy: int,
)
    requires
        ((x + seq!['B', '('] + decimal(ax)).push(',') + decimal(ay)) == ((y + seq!['B', '(']
            + decimal(cx)).push(',') + decimal(cy)),
    ensures
        x == y,
        ax == cx,
        ay == cy,
{
    lemma_decimal_shape(ax);
    lemma_decimal_shape(ay);
    lemma_decimal_shape(cx);
    lemma_decimal_shape(cy);
    let xa = x + seq!['B', '('] + decimal(ax);
    let yc = y + seq!['B', '('] + decimal(cx);
    lemma_cut(xa, decimal(ay), yc, decimal(cy), ',');
    lemma_decimal_injective(ay, cy);
    let xb = x + seq!['B'];
    let yb = y + seq!['B'];
    assert(xa =~= xb.push('(') + decimal(ax));
    assert(yc =~= yb.push('(') + decimal(cx));
    lemma_cut(xb, decimal(ax), yb, decimal(cx), '(');
    lemma_decimal_injective(ax, cx);
    assert(x =~= xb.drop_last());
    assert(y =~= yb.drop_last());
}

/// Two texts that end in the codes of two valid actions are equal only if
/// the actions are the same and the texts before the codes are equal.
proof fn lemma_last_code(x: Seq<char>, a: Action, y: Seq<char>, c: Action)
    requires
        a.valid(),
        c.valid(),
        x + code(a) == y + code(c),
    ensures
        x == y,
        a == c,
{
    let t = x + code(a);
    let u = y + code(c);
    lemma_closing(a);
    lemma_closing(c);
    assert(t.last() == closing(a));
    assert(u.last() == closing(c));
    if a is Extension && c is Extension {
        let (ax, ay) = (a->Extension_0 as int, a->Extension_1 as int);
        let (cx, cy) = (c->Extension_0 as int, c->Extension_1 as int);
        let left = (x + seq!['B', '('] + decimal(ax)).push(',') + decimal(ay);
        let right = (y + seq!['B', '('] + decimal(cx)).push(',') + decimal(cy);
        assert(left =~= t.drop_last());
        assert(right =~= u.drop_last());
        lemma_last_extension(x, ax, ay, y, cx, cy);
    } else if !(a is Extension) && !(c is Extension) {
        assert(x =~= t.drop_last());
        assert(y =~= u.drop_last());
        lemma_letter_injective(a, c);
    }
}

/// Different sequences of valid actions have different texts: from the
/// text, the sequence can be told, action by action and in order.
pub proof fn lemma_encoding_injective(first: Seq<Action>, second: Seq<Action>)
    requires
        all_valid(first),
        all_valid(second),
        encoding(first) == encoding(second),
    ensures
        first == second,
    decreases first.len(),
{
    if first.len() == 0 || second.len() == 0 {
        if first.len() > 0 {
            lemma_closing(first.last());
        }
        if second.len() > 0 {
            lemma_closing(second.last());
        }
        assert(first =~= second);
    } else {
        lemma_last_code(
            encoding(first.drop_last()),
            first.last(),
            encoding(second.drop_last()),
            second.last(),
        );
        lemma_encoding_injective(first.drop_last(), second.drop_last());
        assert(first =~= first.drop_last().push(first.last()));
        assert(second =~= second.drop_last().push(second.last()));
    }
}

} // verus!
