//! Decimal rendering of numbers in error messages.
use vstd::prelude::*;

verus! {

/// The character of a decimal digit.
pub open spec fn digit_char(d: nat) -> char {
    (48 + d) as char
}

/// The decimal rendering of a number, without leading zeros.
pub open spec fn decimal(n: nat) -> Seq<char>
    decreases n,
{
    if n < 10 {
        seq![digit_char(n)]
    } else {
        decimal(n / 10).push(digit_char(n % 10))
    }
}

/// The decimal digit `d`, as text.
fn digit_text(d: usize) -> (t: &'static str)
    requires
        d < 10,
    ensures
        t@ == seq![digit_char(d as nat)],
{
    proof {
        reveal_strlit("0");
        reveal_strlit("1");
        reveal_strlit("2");
        reveal_strlit("3");
        reveal_strlit("4");
        reveal_strlit("5");
        reveal_strlit("6");
        reveal_strlit("7");
        reveal_strlit("8");
        reveal_strlit("9");
    }
    if d == 0 {
        "0"
    } else if d == 1 {
        "1"
    } else if d == 2 {
        "2"
    } else if d == 3 {
        "3"
    } else if d == 4 {
        "4"
    } else if d == 5 {
        "5"
    } else if d == 6 {
        "6"
    } else if d == 7 {
        "7"
    } else if d == 8 {
        "8"
    } else {
        "9"
    }
}

/// Appends the decimal rendering of `n`.
pub fn push_decimal(s: &mut String, n: usize)
    ensures
        final(s)@ == old(s)@ + decimal(n as nat),
{
    let mut digits: Vec<usize> = Vec::new();
    let mut x: usize = n;
    while x >= 10
        invariant
            x <= n,
            forall|i: int| 0 <= i < digits.len() ==> #[trigger] digits@[i] < 10,
            decimal(n as nat) == decimal(x as nat) + Seq::new(
                digits.len() as nat,
                |i: int| digit_char(digits@[digits.len() - 1 - i] as nat),
            ),
        decreases x,
    {
        let ghost before = digits@;
        digits.push(x % 10);
        assert(decimal(x as nat) == decimal((x / 10) as nat).push(digit_char((x % 10) as nat)));
        assert(Seq::new(digits.len() as nat, |i: int| digit_char(digits@[digits.len() - 1 - i] as nat)) =~= seq![
            digit_char((x % 10) as nat),
        ] + Seq::new(before.len() as nat, |i: int| digit_char(before[before.len() - 1 - i] as nat)));
        x = x / 10;
    }
    assert(decimal(x as nat) == seq![digit_char(x as nat)]);
    let first = digit_text(x);
    push_text(s, first);
    let mut i: usize = digits.len();
    while i > 0
        invariant
            i <= digits.len(),
            forall|k: int| 0 <= k < digits.len() ==> #[trigger] digits@[k] < 10,
            decimal(n as nat) == seq![digit_char(x as nat)] + Seq::new(
                digits.len() as nat,
                |k: int| digit_char(digits@[digits.len() - 1 - k] as nat),
            ),
            s@ == old(s)@ + seq![digit_char(x as nat)] + Seq::new(
                (digits.len() - i) as nat,
                |k: int| digit_char(digits@[digits.len() - 1 - k] as nat),
            ),
        decreases i,
    {
        i -= 1;
        let t = digit_text(digits[i]);
        let ghost before = s@;
        push_text(s, t);
        assert(s@ =~= old(s)@ + seq![digit_char(x as nat)] + Seq::new(
            (digits.len() - i) as nat,
            |k: int| digit_char(digits@[digits.len() - 1 - k] as nat),
        ));
    }
}

/// Appends a piece of text.
pub fn push_text(s: &mut String, t: &str)
    ensures
        final(s)@ == old(s)@ + t@,
{
    s.append(t);
}

/// A string holding the given text.
pub fn text(t: &str) -> (s: String)
    ensures
        s@ == t@,
{
    String::from_str(t)
}

/// The items one after another, separated by a comma and a space.
pub open spec fn joined(items: Seq<Seq<char>>) -> Seq<char>
    decreases items.len(),
{
    if items.len() == 0 {
        Seq::empty()
    } else if items.len() == 1 {
        items[0]
    } else {
        joined(items.drop_last()) + ", "@ + items.last()
    }
}

/// The items in square brackets, separated by a comma and a space.
pub open spec fn list_text(items: Seq<Seq<char>>) -> Seq<char> {
    "["@ + joined(items) + "]"@
}

/// The list of the decimal renderings of some bytes, as `{:?}` shows a byte
/// vector.
pub open spec fn bytes_text(b: Seq<u8>) -> Seq<char> {
    list_text(b.map_values(|x: u8| decimal(x as nat)))
}

/// One more item joined at the end.
pub proof fn lemma_joined_step(items: Seq<Seq<char>>, i: int)
    requires
        0 <= i < items.len(),
    ensures
        joined(items.take(i + 1)) == if i == 0 {
            items[0]
        } else {
            joined(items.take(i)) + ", "@ + items[i]
        },
{
    assert(items.take(i + 1).drop_last() =~= items.take(i));
}

/// Appends the list of the decimal renderings of some bytes.
pub fn push_bytes(s: &mut String, b: &[u8])
    ensures
        final(s)@ == old(s)@ + bytes_text(b@),
{
    let ghost items = b@.map_values(|x: u8| decimal(x as nat));
    push_text(s, "[");
    let mut i: usize = 0;
    while i < b.len()
        invariant
            i <= b.len(),
            items == b@.map_values(|x: u8| decimal(x as nat)),
            s@ == old(s)@ + "["@ + joined(items.take(i as int)),
        decreases b.len() - i,
    {
        proof {
            lemma_joined_step(items, i as int);
        }
        if i > 0 {
            push_text(s, ", ");
        }
        push_decimal(s, b[i] as usize);
        i += 1;
    }
    assert(items.take(b.len() as int) =~= items);
    push_text(s, "]");
}

} // verus!
